//! me-tANS decoder.
//!
//! ANS is last-in-first-out, so the encoder writes the payload front to back and the decoder
//! consumes it back to front: every thread's byte range ends with a sentinel `1` bit above the
//! final coder state(s), and bits are pulled from a 64-bit window that slides towards the start
//! of the range.
//!
//! Two layouts exist and they are not interchangeable:
//!
//! * one thread: two interleaved coder states alternate symbol by symbol;
//! * `n > 1` threads: thread `i` owns symbols `i, i + n, i + 2n, ...` and uses a single state.

use vstd::prelude::*;
use vstd::arithmetic::div_mod;
use vstd::arithmetic::power2;

use crate::container;
use crate::error::{Error, Result};
use crate::mans::order;
use crate::mans::order::Step;
use crate::mans::stack;
use crate::mans::symbols;
use crate::mans::tables;
use crate::mans::tables::{ResidualTables, MAX_Z, NUM_STATES};

verus! {

/// Bytes of zero padding in front of the payload so the 64-bit window can always be loaded.
pub const FRONT_PAD: usize = 8;

/// A decoding thread as a value: where it stands in the bits of the padded payload, and its coder
/// states.
pub struct Reader {
    /// The bits of the padded payload.
    pub data: Seq<bool>,
    /// The bits before this position are unread.
    pub pos: int,
    pub state1: u8,
    pub state2: u8,
    /// The thread was asked to read in front of its data.
    pub failed: bool,
}

impl Reader {
    /// The number in the next `n` bits.
    pub open spec fn next(self, n: nat) -> nat {
        stack::number(self.data.subrange(self.pos - n, self.pos))
    }

    /// The thread behind the next `n` bits.
    pub open spec fn skip(self, n: nat) -> Reader {
        Reader { pos: self.pos - n, ..self }
    }

    /// A refill of the window. A thread with fewer than 56 unread bits, padding included, is
    /// exhausted, and starts over at the front of the buffer.
    pub open spec fn refill(self) -> Reader {
        if self.pos < 56 {
            Reader { pos: 56 + self.pos % 8, failed: true, ..self }
        } else {
            self
        }
    }

    /// The coder state that codes a symbol.
    pub open spec fn state(self, second: bool) -> u8 {
        if second {
            self.state2
        } else {
            self.state1
        }
    }

    /// The thread with another coder state.
    pub open spec fn with_state(self, second: bool, state: u8) -> Reader {
        if second {
            Reader { state2: state, ..self }
        } else {
            Reader { state1: state, ..self }
        }
    }

    /// The thread after a decoder entry: bits shifted into the state.
    pub open spec fn advance(self, second: bool, entry: u32) -> Reader {
        let n = tables::bits_in(entry);
        self.with_state(second, tables::base_in(entry) | (self.next(n) as u8)).skip(n)
    }
}

/// Backward bit window over one thread's byte range.
#[derive(Clone, Copy, Debug)]
struct Stream {
    /// Index into the padded buffer of the window's first byte.
    ptr_end: usize,
    head: u64,
    /// Number of unread bits in `head` (they are its low bits).
    bit_pos: u32,
    state1: u8,
    state2: u8,
    /// Set when the window was asked to slide in front of the buffer: the stream is corrupt.
    overrun: bool,
}

impl Stream {
    /// The thread as a value.
    spec fn reader(&self, buf: Seq<u8>) -> Reader {
        Reader {
            data: stack::of_bytes(buf),
            pos: self.ptr_end * 8 + self.bit_pos,
            state1: self.state1,
            state2: self.state2,
            failed: self.overrun,
        }
    }

    /// The window lies within the buffer and holds its bits.
    spec fn wf(&self, buf: Seq<u8>) -> bool {
        &&& self.ptr_end + 8 <= buf.len()
        &&& self.bit_pos <= 63
        &&& self.head == stack::number(
            stack::of_bytes(buf).subrange(
                self.ptr_end * 8,
                self.ptr_end * 8 + self.bit_pos,
            ),
        )
    }

    /// Pull `step` bits.
    fn read(&mut self, step: u32, Ghost(buf): Ghost<Seq<u8>>) -> (v: u64)
        requires
            old(self).wf(buf),
            step <= old(self).bit_pos,
        ensures
            final(self).wf(buf),
            v == old(self).reader(buf).next(step as nat),
            v < power2::pow2(step as nat),
            final(self).reader(buf) == old(self).reader(buf).skip(step as nat),
            final(self).bit_pos == old(self).bit_pos - step,
    {
        let ghost data = stack::of_bytes(buf);
        let ghost from = self.ptr_end * 8;
        let ghost w = data.subrange(from, from + self.bit_pos);
        let rest: u32 = self.bit_pos - step;
        proof {
            stack::lemma_cut(w, rest as int);
            stack::lemma_number_bound(w);
            assert(w.take(rest as int) =~= data.subrange(from, from + rest));
            assert(w.skip(rest as int) =~= data.subrange(from + rest, from + self.bit_pos));
            stack::lemma_number_bound(w.skip(rest as int));
            vstd::bits::lemma_u64_shr_is_div(self.head, rest as u64);
            power2::lemma_pow2_pos(rest as nat);
            div_mod::lemma_fundamental_div_mod(self.head as int, power2::pow2(rest as nat) as int);
            let (p, q) = (power2::pow2(rest as nat) as int, number_int(w.skip(rest as int)));
            assert(q * p == p * q) by (nonlinear_arith);
            vstd::bits::lemma_u64_shl_is_mul((self.head >> (rest as u64)), rest as u64);
        }
        let v: u64 = self.head >> (rest as u64);
        self.head = self.head - (v << (rest as u64));
        self.bit_pos = rest;
        v
    }

    /// Slide the window so that it holds at least 56 unread bits again.
    fn flush(&mut self, buf: &Vec<u8>)
        requires
            old(self).wf(buf@),
        ensures
            final(self).wf(buf@),
            final(self).reader(buf@) == old(self).reader(buf@).refill(),
            56 <= final(self).bit_pos,
    {
        let consumed: usize = 7 - (self.bit_pos / 8) as usize;
        if self.ptr_end >= consumed {
            self.ptr_end = self.ptr_end - consumed;
        } else {
            self.ptr_end = 0;
            self.overrun = true;
        }
        let keep: u32 = 56 + self.bit_pos % 8;
        let all: u64 = load64(buf, self.ptr_end);
        proof {
            let data = stack::of_bytes(buf@);
            let from = self.ptr_end * 8;
            let w = data.subrange(from, from + 64);
            stack::lemma_cut(w, keep as int);
            assert(w.take(keep as int) =~= data.subrange(from, from + keep));
            power2::lemma2_to64();
            power2::lemma_pow2_pos(keep as nat);
            lemma_pow2_below_64(keep as nat);
            vstd::bits::lemma_u64_shl_is_mul(1u64, keep as u64);
            vstd::bits::lemma_u64_low_bits_mask_is_mod(all, keep as nat);
        }
        self.head = all & ((1u64 << (keep as u64)) - 1);
        self.bit_pos = keep;
    }
}

spec fn number_int(s: Seq<bool>) -> int {
    stack::number(s) as int
}

proof fn lemma_pow2_below_64(n: nat)
    requires
        n < 64,
    ensures
        1 <= power2::pow2(n) <= 0x8000_0000_0000_0000,
{
    power2::lemma2_to64_rest();
    power2::lemma2_to64();
    power2::lemma_pow2_pos(n);
    if n < 63 {
        power2::lemma_pow2_strictly_increases(n, 63);
    }
}

/// The eight bytes from `pos` on, the first one lowest.
fn load64(buf: &Vec<u8>, pos: usize) -> (v: u64)
    requires
        pos + 8 <= buf@.len(),
    ensures
        v == stack::number(stack::of_bytes(buf@).subrange(pos * 8, pos * 8 + 64)),
{
    let ghost data = stack::of_bytes(buf@);
    let len: usize = buf.len();
    let mut v: u64 = 0;
    let mut i: usize = 8;
    proof {
        assert(data.subrange(pos * 8 + 64, pos * 8 + 64) =~= Seq::empty());
        power2::lemma2_to64();
    }
    while i > 0
        invariant
            i <= 8,
            pos + 8 <= len == buf@.len(),
            data == stack::of_bytes(buf@),
            v == stack::number(data.subrange(pos * 8 + 8 * i, pos * 8 + 64)),
            v < power2::pow2((64 - 8 * i) as nat),
        decreases i,
    {
        proof {
            power2::lemma2_to64();
            let k = (i - 1) as int;
            let low = data.subrange(pos * 8 + 8 * k, pos * 8 + 8 * k + 8);
            let high = data.subrange(pos * 8 + 8 * i, pos * 8 + 64);
            assert(low + high =~= data.subrange(pos * 8 + 8 * k, pos * 8 + 64));
            stack::lemma_number_concat(low, high);
            stack::lemma_byte(buf@, pos + k);
            assert(low =~= data.subrange(8 * (pos + k), 8 * (pos + k) + 8));
            assert(low.len() == 8);
            assert(stack::number(low) == buf@[pos + k]);
            assert(power2::pow2(8) * stack::number(high) == stack::number(high) * 256)
                by (nonlinear_arith)
                requires
                    power2::pow2(8) == 256,
            ;
            power2::lemma2_to64();
            stack::lemma_number_bound(low + high);
            let n = (64 - 8 * i) as nat;
            lemma_pow2_below_64(n);
            power2::lemma_pow2_adds(n, 8);
            if i > 1 {
                lemma_pow2_below_64((n + 8) as nat);
            } else {
                lemma_pow2_64();
            }
        }
        i = i - 1;
        v = v * 256 + buf[pos + i] as u64;
    }
    v
}

proof fn lemma_pow2_64()
    ensures
        power2::pow2(64) == 0x1_0000_0000_0000_0000,
{
    power2::lemma2_to64();
    power2::lemma2_to64_rest();
}

/// The highest position of a set bit from `from` on, below `to`; -1 if there is none.
pub open spec fn last_set(data: Seq<bool>, from: int, to: int) -> int
    decreases to - from,
{
    if to <= from {
        -1
    } else if data[to - 1] {
        to - 1
    } else {
        last_set(data, from, to - 1)
    }
}

/// What opening the thread whose last byte lies before byte `end` of the padded payload gives:
/// the highest set bit of its last eight bytes ends the data, and below it lies the final coder
/// state, or the two of them.
pub open spec fn spec_open(data: Seq<bool>, end: int, two_states: bool) -> core::result::Result<
    Reader,
    Error,
> {
    if end < 8 || end * 8 > data.len() {
        Err(Error::InvalidData("ANS thread range out of bounds"))
    } else {
        let from = (end - 8) * 8;
        let mark = last_set(data, from, end * 8);
        if mark < 0 {
            Err(Error::InvalidData("ANS stream has no terminator bit"))
        } else if mark - from < if two_states {
            16int
        } else {
            8
        } {
            Err(Error::InvalidData("ANS stream too short for its initial state"))
        } else {
            let start = Reader { data, pos: mark, state1: 0, state2: 0, failed: false };
            let one = start.with_state(false, start.next(8) as u8).skip(8);
            if two_states {
                Ok(one.with_state(true, one.next(8) as u8).skip(8).refill())
            } else {
                Ok(one.refill())
            }
        }
    }
}

/// Position of the highest set bit of a number.
fn top_bit(v: u64) -> (n: u32)
    requires
        v != 0,
    ensures
        n <= 63,
        power2::pow2(n as nat) <= v < power2::pow2((n + 1) as nat),
{
    let lz: u32 = v.leading_zeros();
    proof {
        vstd::std_specs::bits::axiom_u64_leading_zeros(v);
        let top = (63 - lz) as u64;
        lemma_pow2_below_64(top as nat);
        vstd::bits::lemma_u64_shr_is_div(v, top);
        let high = v >> top;
        assert(high & 1u64 != 0u64 ==> high >= 1) by (bit_vector);
        let p = power2::pow2(top as nat) as int;
        div_mod::lemma_fundamental_div_mod(v as int, p);
        let q = v as int / p;
        assert(p * q >= p) by (nonlinear_arith)
            requires
                q >= 1,
                p > 0,
        ;
        if lz > 0 {
            let above = (64 - lz) as u64;
            vstd::bits::lemma_u64_shr_is_div(v, above);
            lemma_pow2_below_64(above as nat);
            div_mod::lemma_small_div_converse(v as int, power2::pow2(above as nat) as int);
        } else {
            lemma_pow2_64();
        }
    }
    63 - lz
}

/// Above the highest set bit of a window there is none.
pub proof fn lemma_last_set(data: Seq<bool>, from: int, to: int, n: int)
    requires
        0 <= from <= n < to <= data.len(),
        data[n],
        forall|i: int| n < i < to ==> !#[trigger] data[i],
    ensures
        last_set(data, from, to) == n,
    decreases to - from,
{
    if n < to - 1 {
        assert(!data[to - 1]);
        lemma_last_set(data, from, to - 1, n);
    }
}

proof fn lemma_none_set(data: Seq<bool>, from: int, to: int)
    requires
        forall|i: int| from <= i < to ==> !#[trigger] data[i],
    ensures
        last_set(data, from, to) == -1,
    decreases to - from,
{
    if from < to {
        assert(!data[to - 1]);
        lemma_none_set(data, from, to - 1);
    }
}

/// The window's number tells where its highest set bit is.
proof fn lemma_mark(data: Seq<bool>, from: int, head: nat, n: nat)
    requires
        0 <= from,
        from + 64 <= data.len(),
        head == stack::number(data.subrange(from, from + 64)),
        n < 64,
        power2::pow2(n) <= head < power2::pow2(n + 1),
    ensures
        last_set(data, from, from + 64) == from + n,
{
    let w = data.subrange(from, from + 64);
    stack::lemma_digits_of_number(w);
    assert(data[from + n]) by {
        let p = power2::pow2(n) as int;
        power2::lemma_pow2_unfold(n + 1);
        assert(head as int / p == 1) by (nonlinear_arith)
            requires
                p <= head < 2 * p,
                p > 0,
        ;
        assert(w[n as int] == stack::digits(head, 64)[n as int]);
    }
    assert forall|i: int| from + n < i < from + 64 implies !#[trigger] data[i] by {
        let j = (i - from) as nat;
        if n + 1 < j {
            power2::lemma_pow2_strictly_increases(n + 1, j);
        }
        div_mod::lemma_basic_div(head as int, power2::pow2(j) as int);
        assert(w[j as int] == stack::digits(head, 64)[j as int]);
    }
    lemma_last_set(data, from, from + 64, from + n);
}

impl Stream {
    /// Open the thread whose last byte lies before byte `end` of the padded buffer.
    fn open(buf: &Vec<u8>, end: usize, two_states: bool) -> (r: Result<Self>)
        ensures
            match spec_open(stack::of_bytes(buf@), end as int, two_states) {
                Ok(m) => r matches Ok(s) && s.wf(buf@) && s.reader(buf@) == m && s.bit_pos >= 56,
                Err(e) => r == Err::<Stream, Error>(e),
            },
    {
        if end < FRONT_PAD || end > buf.len() {
            return Err(Error::InvalidData("ANS thread range out of bounds"));
        }
        let ptr_end: usize = end - FRONT_PAD;
        let head: u64 = load64(buf, ptr_end);
        let ghost data = stack::of_bytes(buf@);
        let ghost from = ptr_end * 8;
        let ghost w = data.subrange(from, from + 64);
        if head == 0 {
            proof {
                stack::lemma_digits_of_number(w);
                assert forall|i: int| from <= i < from + 64 implies !#[trigger] data[i] by {
                    let j = (i - from) as nat;
                    power2::lemma_pow2_pos(j);
                    div_mod::lemma_div_of0(power2::pow2(j) as int);
                    assert(w[j as int] == stack::digits(0, 64)[j as int]);
                }
                lemma_none_set(data, from, from + 64);
            }
            return Err(Error::InvalidData("ANS stream has no terminator bit"));
        }
        let bit_pos: u32 = top_bit(head);
        proof {
            lemma_mark(data, from, head as nat, bit_pos as nat);
            lemma_pow2_below_64(bit_pos as nat);
            vstd::bits::lemma_u64_shl_is_mul(1u64, bit_pos as u64);
            stack::lemma_cut(w, bit_pos as int);
            assert(w.take(bit_pos as int) =~= data.subrange(from, from + bit_pos));
            power2::lemma_pow2_unfold((bit_pos + 1) as nat);
            div_mod::lemma_fundamental_div_mod_converse(
                head as int,
                power2::pow2(bit_pos as nat) as int,
                1,
                head - power2::pow2(bit_pos as nat),
            );
        }
        let need: u32 = if two_states { 16 } else { 8 };
        if bit_pos < need {
            return Err(Error::InvalidData("ANS stream too short for its initial state"));
        }
        let mut s = Stream {
            ptr_end,
            head: head - (1u64 << (bit_pos as u64)),
            bit_pos,
            state1: 0,
            state2: 0,
            overrun: false,
        };
        proof {
            power2::lemma2_to64();
        }
        let v1: u64 = s.read(8, Ghost(buf@));
        s.state1 = v1 as u8;
        if two_states {
            let v2: u64 = s.read(8, Ghost(buf@));
            s.state2 = v2 as u8;
        }
        s.flush(buf);
        Ok(s)
    }
}

/// The signed number that 16 bits stand for.
pub open spec fn signed16(v: int) -> i16 {
    if v < 32768 {
        v as i16
    } else {
        (v - 65536) as i16
    }
}

/// The value that an escape code stands for: the lowest bit is the sign, the rest the distance
/// from the bound.
pub open spec fn escape_value(code: nat, bound: u8) -> i16 {
    if code % 2 == 0 {
        (code / 2 + bound) as i16
    } else {
        (-(code / 2 + bound)) as i16
    }
}

/// What a call that codes residual symbols works with.
pub struct ResidualCall {
    pub tables: ResidualTables,
    /// Symbols alternate between two coder states.
    pub two_states: bool,
    /// Per symbol, the distribution.
    pub sigma: Seq<u8>,
    /// Per symbol, whether it is coded at all.
    pub mask: Seq<bool>,
}

impl ResidualCall {
    /// The distribution of a symbol.
    pub open spec fn dist(self, i: int) -> int {
        tables::spec_dist(self.sigma[i])
    }

    /// Whether a symbol is coded with the second state.
    pub open spec fn second(self, i: int) -> bool {
        self.two_states && i % 2 == 1
    }

    /// The escape bound of a symbol's distribution.
    pub open spec fn bound(self, i: int) -> u8 {
        self.tables.bounds@[self.dist(i)]
    }

    /// Decode the coder's symbol `i`.
    #[verifier::opaque]
    pub open spec fn inbound(self, m: (Reader, Seq<i16>), i: int) -> (Reader, Seq<i16>) {
        if !self.mask[i] {
            m
        } else {
            let entry = self.tables.decode@[self.dist(i)]@[m.0.state(self.second(i)) as int];
            (m.0.advance(self.second(i), entry), m.1.update(i, signed16(entry as int % 65536)))
        }
    }

    /// If symbol `i` is the escape symbol, read the value: a flag, then three or sixteen bits.
    #[verifier::opaque]
    pub open spec fn outbound(self, m: (Reader, Seq<i16>), i: int) -> (Reader, Seq<i16>) {
        if !self.mask[i] || m.1[i] + self.bound(i) != 0 {
            m
        } else {
            let n = if m.0.next(1) != 0 {
                3nat
            } else {
                16
            };
            let code = m.0.skip(1).next(n);
            (m.0.skip(1).skip(n).refill(), m.1.update(i, escape_value(code, self.bound(i))))
        }
    }

    /// One step of the order.
    #[verifier::opaque]
    pub open spec fn step(self, m: (Reader, Seq<i16>), step: Step) -> (Reader, Seq<i16>) {
        match step {
            Step::Group { at, by } => {
                let a = self.inbound(m, at);
                let b = self.inbound(a, at + by);
                let c = self.inbound(b, at + 2 * by);
                let d = self.inbound(c, at + 3 * by);
                let e = self.outbound((d.0.refill(), d.1), at);
                let f = self.outbound(e, at + by);
                let g = self.outbound(f, at + 2 * by);
                self.outbound(g, at + 3 * by)
            },
            Step::One(i) => self.outbound(self.inbound(m, i), i),
            Step::Refill => (m.0.refill(), m.1),
        }
    }

    /// The steps of an order, from the front.
    pub open spec fn run(self, m: (Reader, Seq<i16>), steps: Seq<Step>) -> (Reader, Seq<i16>)
        decreases steps.len(),
    {
        if steps.len() == 0 {
            m
        } else {
            self.run(self.step(m, steps[0]), steps.skip(1))
        }
    }

    /// The call is about `len` symbols and has tables to decode them with.
    pub open spec fn wf(self, len: nat) -> bool {
        &&& self.tables.wf()
        &&& self.sigma.len() == len
        &&& self.mask.len() == len
    }
}

/// Everything that decoding a residual symbol needs besides the thread and the output.
#[derive(Clone, Copy)]
struct ResidualArgs<'a> {
    tables: &'a ResidualTables,
    buf: &'a Vec<u8>,
    two_states: bool,
    sigma: &'a [u8],
    mask: &'a [bool],
}

impl<'a> ResidualArgs<'a> {
    spec fn call(&self) -> ResidualCall {
        ResidualCall {
            tables: *self.tables,
            two_states: self.two_states,
            sigma: self.sigma@,
            mask: self.mask@,
        }
    }

    fn inbound(&self, s: &mut Stream, out: &mut [i16], i: usize)
        requires
            self.call().wf(old(out)@.len()),
            i < old(out)@.len(),
            old(s).wf(self.buf@),
            old(s).bit_pos >= 8,
        ensures
            final(out)@.len() == old(out)@.len(),
            final(s).wf(self.buf@),
            final(s).bit_pos >= old(s).bit_pos - 8,
            (final(s).reader(self.buf@), final(out)@) == self.call().inbound(
                (old(s).reader(self.buf@), old(out)@),
                i as int,
            ),
    {
        proof {
            reveal(ResidualCall::inbound);
        }
        if self.mask[i] {
            let d: usize = tables::dist(self.sigma[i]);
            let second: bool = self.two_states && i % 2 == 1;
            let state: u8 = if second { s.state2 } else { s.state1 };
            proof {
                assert(self.tables.decode@[d as int]@.len() == 256);
                assert(row_entry_small(self.tables, d as int, state as int));
            }
            let t: u32 = self.tables.decode[d][state as usize];
            let n: u32 = t / 0x100_0000;
            let v: u64 = s.read(n, Ghost(self.buf@));
            proof {
                power2::lemma2_to64();
                if n < 8 {
                    power2::lemma_pow2_strictly_increases(n as nat, 8);
                }
            }
            let next: u8 = ((t / 0x1_0000 % 256) as u8) | (v as u8);
            if second {
                s.state2 = next;
            } else {
                s.state1 = next;
            }
            let low: u32 = t % 65536;
            let sym: i16 = if low < 32768 { low as i16 } else { (low as i32 - 65536) as i16 };
            out[i] = sym;
        }
    }

    fn outbound(&self, s: &mut Stream, out: &mut [i16], i: usize)
        requires
            self.call().wf(old(out)@.len()),
            i < old(out)@.len(),
            old(s).wf(self.buf@),
            old(s).bit_pos >= 17,
        ensures
            final(out)@.len() == old(out)@.len(),
            final(s).wf(self.buf@),
            final(s).bit_pos >= 56 || final(s).bit_pos == old(s).bit_pos,
            (final(s).reader(self.buf@), final(out)@) == self.call().outbound(
                (old(s).reader(self.buf@), old(out)@),
                i as int,
            ),
    {
        proof {
            reveal(ResidualCall::outbound);
        }
        if self.mask[i] {
            let d: usize = tables::dist(self.sigma[i]);
            let bound: u8 = self.tables.bounds[d];
            if out[i] as i32 + bound as i32 == 0 {
                let flag: u64 = s.read(1, Ghost(self.buf@));
                let n: u32 = if flag != 0 { 3 } else { 16 };
                let code: u64 = s.read(n, Ghost(self.buf@));
                proof {
                    power2::lemma2_to64();
                }
                let dist: i32 = (code / 2) as i32 + bound as i32;
                let v: i32 = if code % 2 == 0 { dist } else { -dist };
                out[i] = #[verifier::truncate] (v as i16);
                s.flush(self.buf);
            }
        }
    }
}

/// A decoder entry shifts in at most eight bits.
spec fn row_entry_small(t: &ResidualTables, d: int, state: int) -> bool {
    t.decode@[d]@[state] / 0x100_0000 <= 8
}

/// Taking the first step of what is left of an order.
proof fn lemma_next_step(order: Seq<Step>, k: int)
    requires
        0 <= k < order.len(),
    ensures
        order.skip(k)[0] == order[k],
        order.skip(k).skip(1) == order.skip(k + 1),
        order.skip(k).len() > 0,
{
    assert(order.skip(k).skip(1) =~= order.skip(k + 1));
}

/// Running on from step `k` of an order.
proof fn lemma_run_step(c: ResidualCall, m: (Reader, Seq<i16>), order: Seq<Step>, k: int)
    requires
        0 <= k < order.len(),
    ensures
        c.run(m, order.skip(k)) == c.run(c.step(m, order[k]), order.skip(k + 1)),
{
    lemma_next_step(order, k);
}

impl<'a> ResidualArgs<'a> {
    fn group(&self, s: &mut Stream, out: &mut [i16], at: usize, by: usize)
        requires
            self.call().wf(old(out)@.len()),
            at + 3 * by < old(out)@.len(),
            old(s).wf(self.buf@),
            old(s).bit_pos >= 56,
        ensures
            final(out)@.len() == old(out)@.len(),
            final(s).wf(self.buf@),
            final(s).bit_pos >= 56,
            (final(s).reader(self.buf@), final(out)@) == self.call().step(
                (old(s).reader(self.buf@), old(out)@),
                Step::Group { at: at as int, by: by as int },
            ),
    {
        proof {
            reveal(ResidualCall::step);
        }
        let len: usize = out.len();
        self.inbound(s, out, at);
        self.inbound(s, out, at + by);
        self.inbound(s, out, at + 2 * by);
        self.inbound(s, out, at + 3 * by);
        s.flush(self.buf);
        self.outbound(s, out, at);
        self.outbound(s, out, at + by);
        self.outbound(s, out, at + 2 * by);
        self.outbound(s, out, at + 3 * by);
    }

    fn one(&self, s: &mut Stream, out: &mut [i16], i: usize)
        requires
            self.call().wf(old(out)@.len()),
            i < old(out)@.len(),
            old(s).wf(self.buf@),
            old(s).bit_pos >= 25,
        ensures
            final(out)@.len() == old(out)@.len(),
            final(s).wf(self.buf@),
            final(s).bit_pos >= old(s).bit_pos - 8 || final(s).bit_pos >= 56,
            (final(s).reader(self.buf@), final(out)@) == self.call().step(
                (old(s).reader(self.buf@), old(out)@),
                Step::One(i as int),
            ),
    {
        proof {
            reveal(ResidualCall::step);
        }
        self.inbound(s, out, i);
        self.outbound(s, out, i);
    }

    /// All symbols on one thread, with two states.
    fn decode_single(&self, s: &mut Stream, out: &mut [i16])
        requires
            self.call().wf(old(out)@.len()),
            old(s).wf(self.buf@),
            old(s).bit_pos >= 56,
        ensures
            final(out)@.len() == old(out)@.len(),
            final(s).wf(self.buf@),
            final(s).bit_pos >= 56,
            (final(s).reader(self.buf@), final(out)@) == self.call().run(
                (old(s).reader(self.buf@), old(out)@),
                order::residual_order(old(out)@.len() as int, 0, 1),
            ),
    {
        let len: usize = out.len();
        let ghost call = self.call();
        let ghost buf = self.buf@;
        let ghost m0 = (s.reader(buf), out@);
        let ghost order = order::residual_order(len as int, 0, 1);
        let ghost tail = order::residual_tail(len as int);
        let mut index: usize = 0;
        proof {
            assert(order.skip(0) =~= order);
        }
        while len - index >= 4
            invariant
                index <= len,
                index % 4 == 0,
                len == out@.len(),
                call == self.call(),
                buf == self.buf@,
                call.wf(len as nat),
                s.wf(buf),
                s.bit_pos >= 56,
                order == order::residual_order(len as int, 0, 1),
                call.run(m0, order) == call.run(
                    (s.reader(buf), out@),
                    order.skip(index as int / 4),
                ),
            decreases len - index,
        {
            proof {
                let k = index as int / 4;
                lemma_next_step(order, k);
                assert(order[k] == Step::Group { at: index as int, by: 1 });
            }
            self.group(s, out, index, 1);
            index = index + 4;
        }
        let left: usize = len - index;
        proof {
            assert(index == len / 4 * 4);
            assert(order.skip(index as int / 4) =~= tail);
            assert(tail.skip(0) =~= tail);
        }
        let ghost mut k: int = 0;
        proof {
            reveal(ResidualCall::step);
        }
        if left >= 2 {
            let ghost m1 = (s.reader(buf), out@);
            self.one(s, out, index);
            let ghost m2 = (s.reader(buf), out@);
            self.one(s, out, index + 1);
            let ghost m3 = (s.reader(buf), out@);
            s.flush(self.buf);
            index = index + 2;
            proof {
                lemma_run_step(call, m1, tail, 0);
                lemma_run_step(call, m2, tail, 1);
                lemma_run_step(call, m3, tail, 2);
                k = 3;
            }
        }
        if left % 2 == 1 {
            let ghost m1 = (s.reader(buf), out@);
            self.one(s, out, index);
            let ghost m2 = (s.reader(buf), out@);
            s.flush(self.buf);
            proof {
                lemma_run_step(call, m1, tail, k);
                lemma_run_step(call, m2, tail, k + 1);
                k = k + 2;
            }
        }
        proof {
            assert(tail.skip(k).len() == 0);
        }
    }

    /// One of several threads: symbols `first, first + n, ...`, single state.
    fn decode_strided(&self, s: &mut Stream, out: &mut [i16], first: usize, n: usize)
        requires
            self.call().wf(old(out)@.len()),
            old(s).wf(self.buf@),
            old(s).bit_pos >= 56,
            2 <= n <= 16,
            first < n,
        ensures
            final(out)@.len() == old(out)@.len(),
            final(s).wf(self.buf@),
            final(s).bit_pos >= 56,
            (final(s).reader(self.buf@), final(out)@) == self.call().run(
                (old(s).reader(self.buf@), old(out)@),
                order::residual_order(old(out)@.len() as int, first as int, n as int),
            ),
    {
        let len: usize = out.len();
        let ghost call = self.call();
        let ghost buf = self.buf@;
        let ghost m0 = (s.reader(buf), out@);
        let ghost order = order::residual_order(len as int, first as int, n as int);
        let span: usize = 4 * n;
        let count: usize = len / span;
        let mut g: usize = 0;
        proof {
            assert(order.skip(0) =~= order);
        }
        while g < count
            invariant
                g <= count,
                count == len as int / (4 * n as int),
                span == 4 * n,
                2 <= n <= 16,
                first < n,
                len == out@.len(),
                call == self.call(),
                buf == self.buf@,
                call.wf(len as nat),
                s.wf(buf),
                s.bit_pos >= 56,
                order == order::residual_order(len as int, first as int, n as int),
                call.run(m0, order) == call.run((s.reader(buf), out@), order.skip(g as int)),
            decreases count - g,
        {
            proof {
                lemma_next_step(order, g as int);
                order::lemma_group_within(len as int, n as int, first as int, g as int);
                assert(order[g as int] == Step::Group {
                    at: first + 4 * n * g,
                    by: n as int,
                });
                assert(span * g == 4 * n * g) by (nonlinear_arith)
                    requires
                        span == 4 * n,
                ;
            }
            self.group(s, out, first + span * g, n);
            g = g + 1;
        }
        proof {
            order::lemma_groups_end(len as int, n as int, first as int);
        }
        if len - count * span <= first {
            proof {
                assert(order.skip(g as int) =~= Seq::empty());
            }
            return;
        }
        let start: usize = count * span + first;
        let ghost done = start as int;
        let ghost ones = order::count_from(len as int, done, n as int);
        let mut index: usize = start;
        let ghost mut j: int = 0;
        proof {
            assert(done == len as int / (4 * n as int) * (4 * n as int) + first);
            assert(done + n as int * 0 == done);
        }
        while index < len
            invariant
                start <= index,
                index == done + n as int * j,
                0 <= j,
                done == start,
                2 <= n <= 16,
                first < n,
                start < len,
                done == len as int / (4 * n as int) * (4 * n as int) + first,
                count == len as int / (4 * n as int),
                ones == order::count_from(len as int, done, n as int),
                len == out@.len(),
                call == self.call(),
                buf == self.buf@,
                call.wf(len as nat),
                s.wf(buf),
                s.bit_pos >= 56,
                j <= ones,
                m0 == (old(s).reader(buf), old(out)@),
                len == old(out)@.len(),
                order == order::residual_order(len as int, first as int, n as int),
                call.run(m0, order) == call.run(
                    (s.reader(buf), out@),
                    order.skip(count + 2 * j),
                ),
            decreases len + n - index,
        {
            proof {
                order::lemma_count_from(len as int, done, n as int, j);
                let k = count + 2 * j;
                assert(order[k] == Step::One(done + n as int * j));
                assert(order[k + 1] is Refill);
                assert(n as int * (j + 1) == n as int * j + n) by (nonlinear_arith);
            }
            let ghost m1 = (s.reader(buf), out@);
            self.one(s, out, index);
            let ghost m2 = (s.reader(buf), out@);
            s.flush(self.buf);
            proof {
                reveal(ResidualCall::step);
                lemma_run_step(call, m1, order, count + 2 * j);
                lemma_run_step(call, m2, order, count + 2 * j + 1);
                j = j + 1;
            }
            if len - index <= n {
                proof {
                    order::lemma_count_from(len as int, done, n as int, j);
                    assert(order.skip(count + 2 * j) =~= Seq::empty());
                }
                return;
            }
            index = index + n;
        }
        proof {
            order::lemma_count_from(len as int, done, n as int, j);
            assert(order.skip(count + 2 * j) =~= Seq::empty());
        }
    }
}

/// What a call that decodes a row of hyper-latent symbols works with.
pub struct ZCall {
    /// State to decoder entry.
    pub transitions: Seq<u32>,
    /// Symbols alternate between two coder states.
    pub two_states: bool,
}

impl ZCall {
    /// Whether a symbol is coded with the second state.
    pub open spec fn second(self, i: int) -> bool {
        self.two_states && i % 2 == 1
    }

    /// Decode the coder's symbol `i`.
    #[verifier::opaque]
    pub open spec fn inbound(self, m: (Reader, Seq<u8>), i: int) -> (Reader, Seq<u8>) {
        let entry = self.transitions[m.0.state(self.second(i)) as int];
        (m.0.advance(self.second(i), entry), m.1.update(i, (entry % 256) as u8))
    }

    /// If symbol `i` is the escape symbol, read the value from six bits.
    #[verifier::opaque]
    pub open spec fn outbound(self, m: (Reader, Seq<u8>), i: int) -> (Reader, Seq<u8>) {
        if m.1[i] == 63 {
            (m.0.skip(6), m.1.update(i, m.0.next(6) as u8))
        } else {
            m
        }
    }

    /// One step of the order.
    #[verifier::opaque]
    pub open spec fn step(self, m: (Reader, Seq<u8>), step: Step) -> (Reader, Seq<u8>) {
        match step {
            Step::Group { at, by } => {
                let a = self.inbound(m, at);
                let b = self.inbound(a, at + by);
                let c = self.inbound(b, at + 2 * by);
                let d = self.inbound(c, at + 3 * by);
                let e = self.outbound(d, at);
                let f = self.outbound(e, at + by);
                let g = self.outbound(f, at + 2 * by);
                self.outbound(g, at + 3 * by)
            },
            Step::One(i) => self.outbound(self.inbound(m, i), i),
            Step::Refill => (m.0.refill(), m.1),
        }
    }

    /// The steps of an order, from the front.
    pub open spec fn run(self, m: (Reader, Seq<u8>), steps: Seq<Step>) -> (Reader, Seq<u8>)
        decreases steps.len(),
    {
        if steps.len() == 0 {
            m
        } else {
            self.run(self.step(m, steps[0]), steps.skip(1))
        }
    }

    /// There is an entry for each state, and none shifts in more than eight bits.
    pub open spec fn wf(self) -> bool {
        &&& self.transitions.len() == 256
        &&& forall|s: int| 0 <= s < 256 ==> (#[trigger] self.transitions[s]) / 0x100_0000 <= 8
    }
}

/// Running on from step `k` of an order.
proof fn lemma_z_run_step(c: ZCall, m: (Reader, Seq<u8>), order: Seq<Step>, k: int)
    requires
        0 <= k < order.len(),
    ensures
        c.run(m, order.skip(k)) == c.run(c.step(m, order[k]), order.skip(k + 1)),
{
    lemma_next_step(order, k);
}

/// Everything that decoding a hyper-latent symbol needs besides the thread and the output.
#[derive(Clone, Copy)]
struct ZArgs<'a> {
    transitions: &'a Vec<u32>,
    buf: &'a Vec<u8>,
    two_states: bool,
}

impl<'a> ZArgs<'a> {
    spec fn call(&self) -> ZCall {
        ZCall { transitions: self.transitions@, two_states: self.two_states }
    }

    fn inbound(&self, s: &mut Stream, row: &mut Vec<u8>, i: usize)
        requires
            self.call().wf(),
            i < old(row)@.len(),
            old(s).wf(self.buf@),
            old(s).bit_pos >= 8,
        ensures
            final(row)@.len() == old(row)@.len(),
            final(s).wf(self.buf@),
            final(s).bit_pos >= old(s).bit_pos - 8,
            (final(s).reader(self.buf@), final(row)@) == self.call().inbound(
                (old(s).reader(self.buf@), old(row)@),
                i as int,
            ),
    {
        proof {
            reveal(ZCall::inbound);
        }
        let second: bool = self.two_states && i % 2 == 1;
        let state: u8 = if second { s.state2 } else { s.state1 };
        proof {
            assert(self.call().transitions[state as int] / 0x100_0000 <= 8);
        }
        let t: u32 = self.transitions[state as usize];
        let n: u32 = t / 0x100_0000;
        let v: u64 = s.read(n, Ghost(self.buf@));
        proof {
            power2::lemma2_to64();
            if n < 8 {
                power2::lemma_pow2_strictly_increases(n as nat, 8);
            }
        }
        let next: u8 = ((t / 0x1_0000 % 256) as u8) | (v as u8);
        if second {
            s.state2 = next;
        } else {
            s.state1 = next;
        }
        row.set(i, (t % 256) as u8);
    }

    fn outbound(&self, s: &mut Stream, row: &mut Vec<u8>, i: usize)
        requires
            i < old(row)@.len(),
            old(s).wf(self.buf@),
            old(s).bit_pos >= 6,
        ensures
            final(row)@.len() == old(row)@.len(),
            final(s).wf(self.buf@),
            final(s).bit_pos >= old(s).bit_pos - 6,
            (final(s).reader(self.buf@), final(row)@) == self.call().outbound(
                (old(s).reader(self.buf@), old(row)@),
                i as int,
            ),
    {
        proof {
            reveal(ZCall::outbound);
            power2::lemma2_to64();
        }
        if row[i] as usize == MAX_Z {
            let v: u64 = s.read(6, Ghost(self.buf@));
            row.set(i, v as u8);
        }
    }

    fn group(&self, s: &mut Stream, row: &mut Vec<u8>, at: usize, by: usize)
        requires
            self.call().wf(),
            at + 3 * by < old(row)@.len(),
            old(s).wf(self.buf@),
            old(s).bit_pos >= 56,
        ensures
            final(row)@.len() == old(row)@.len(),
            final(s).wf(self.buf@),
            (final(s).reader(self.buf@), final(row)@) == self.call().step(
                (old(s).reader(self.buf@), old(row)@),
                Step::Group { at: at as int, by: by as int },
            ),
    {
        proof {
            reveal(ZCall::step);
        }
        let len: usize = row.len();
        self.inbound(s, row, at);
        self.inbound(s, row, at + by);
        self.inbound(s, row, at + 2 * by);
        self.inbound(s, row, at + 3 * by);
        self.outbound(s, row, at);
        self.outbound(s, row, at + by);
        self.outbound(s, row, at + 2 * by);
        self.outbound(s, row, at + 3 * by);
    }

    /// The symbols of a row that belong to thread `first` of `n`.
    fn decode_row(&self, s: &mut Stream, row: &mut Vec<u8>, first: usize, n: usize)
        requires
            self.call().wf(),
            old(s).wf(self.buf@),
            old(s).bit_pos >= 56,
            1 <= n <= 16,
            first < n,
        ensures
            final(row)@.len() == old(row)@.len(),
            final(s).wf(self.buf@),
            final(s).bit_pos >= 56,
            (final(s).reader(self.buf@), final(row)@) == self.call().run(
                (old(s).reader(self.buf@), old(row)@),
                order::z_order(old(row)@.len() as int, first as int, n as int),
            ),
    {
        let len: usize = row.len();
        let ghost call = self.call();
        let ghost buf = self.buf@;
        let ghost m0 = (s.reader(buf), row@);
        let ghost order = order::z_order(len as int, first as int, n as int);
        let span: usize = 4 * n;
        let count: usize = len / span;
        let mut g: usize = 0;
        proof {
            assert(order.skip(0) =~= order);
        }
        while g < count
            invariant
                g <= count,
                count == len as int / (4 * n as int),
                span == 4 * n,
                1 <= n <= 16,
                first < n,
                len == row@.len(),
                call == self.call(),
                buf == self.buf@,
                call.wf(),
                s.wf(buf),
                s.bit_pos >= 56,
                order == order::z_order(len as int, first as int, n as int),
                call.run(m0, order) == call.run((s.reader(buf), row@), order.skip(2 * g)),
            decreases count - g,
        {
            proof {
                order::lemma_group_within(len as int, n as int, first as int, g as int);
                assert(span * g == 4 * n * g) by (nonlinear_arith)
                    requires
                        span == 4 * n,
                ;
                assert(order[2 * g] == Step::Group { at: first + 4 * n * g, by: n as int });
                assert(order[2 * g + 1] is Refill);
            }
            let ghost m1 = (s.reader(buf), row@);
            self.group(s, row, first + span * g, n);
            let ghost m2 = (s.reader(buf), row@);
            s.flush(self.buf);
            proof {
                reveal(ZCall::step);
                lemma_z_run_step(call, m1, order, 2 * g);
                lemma_z_run_step(call, m2, order, 2 * g + 1);
            }
            g = g + 1;
        }
        proof {
            order::lemma_groups_end(len as int, n as int, first as int);
        }
        let ghost done = count * span + first;
        let ghost singles = order::count_from(len as int, done, n as int);
        let ghost last = 2 * count + singles;
        let ghost mut j: int = 0;
        if len - count * span > first {
            let mut index: usize = count * span + first;
            let mut more: bool = true;
            proof {
                order::lemma_count_from(len as int, done, n as int, 0);
                assert(done + n as int * 0 == done);
            }
            while more
                invariant
                    index == done + n as int * j,
                    0 <= j < 4,
                    more ==> j < singles,
                    !more ==> j + 1 == singles,
                    index < len,
                    1 <= n <= 16,
                    0 <= done < len,
                    len - done < 4 * n,
                    done == len as int / (4 * n as int) * (4 * n as int) + first,
                    count == len as int / (4 * n as int),
                    singles == order::count_from(len as int, done, n as int),
                    len == row@.len(),
                    call == self.call(),
                    buf == self.buf@,
                    call.wf(),
                    s.wf(buf),
                    s.bit_pos >= 56 - 14 * (if more { j } else { j + 1 }),
                    order == order::z_order(len as int, first as int, n as int),
                    call.run(m0, order) == call.run(
                        (s.reader(buf), row@),
                        order.skip(2 * count + (if more { j } else { j + 1 })),
                    ),
                decreases (if more { len - index + 1 } else { 0 }),
            {
                let ghost m1 = (s.reader(buf), row@);
                self.inbound(s, row, index);
                self.outbound(s, row, index);
                proof {
                    reveal(ZCall::step);
                    assert(order[2 * count + j] == Step::One(done + n as int * j));
                    lemma_z_run_step(call, m1, order, 2 * count + j);
                    order::lemma_count_from(len as int, done, n as int, j + 1);
                    assert(n as int * (j + 1) == n as int * j + n) by (nonlinear_arith);
                    if j >= 3 {
                        assert(n as int * 4 == 4 * n as int);
                    }
                }
                if len - index > n {
                    index = index + n;
                    proof {
                        assert(n as int * 3 + n == 4 * n);
                        if j == 3 {
                            assert(false);
                        }
                        j = j + 1;
                    }
                } else {
                    more = false;
                }
            }
            proof {
                j = j + 1;
            }
        }
        proof {
            assert(order[last] is Refill);
            lemma_z_run_step(call, (s.reader(buf), row@), order, last);
            assert(order.skip(last + 1).len() == 0);
            reveal(ZCall::step);
        }
        s.flush(self.buf);
    }
}

/// The decoder table of a hyper-latent CDF: state to
/// `nbits << 24 | next_state_base << 16 | symbol`.
fn z_transitions(preprocess: &[u16; 512], cdf: &[u8; MAX_Z]) -> (r: Result<Vec<u32>>)
    requires
        forall|k: int|
            0 <= k < 512 ==> #[trigger] preprocess@[k] == tables::preprocess_entry(k as nat),
    ensures
        tables::z_monotone(cdf@) ==> (r matches Ok(t) && t@ == tables::z_decode_table(cdf@)),
        !tables::z_monotone(cdf@) ==> r == Err::<Vec<u32>, Error>(
            Error::InvalidData("z CDF is not monotonic"),
        ),
        r matches Ok(t) ==> (ZCall { transitions: t@, two_states: true }).wf(),
{
    let ghost c = cdf@;
    let mut t: Vec<u32> = Vec::new();
    let mut curr: usize = 0;
    let mut sym: usize = 0;
    while sym < MAX_Z
        invariant
            sym <= 63,
            c == cdf@,
            c.len() == 63,
            sym < 63 ==> curr == tables::z_start(c, sym as int),
            sym == 63 ==> curr == c[62],
            curr <= 255,
            t@.len() == curr,
            forall|i: int| 0 <= i < sym ==> tables::z_start(c, i) <= #[trigger] c[i],
            forall|i: int, k: int|
                0 <= i < sym && 0 <= k < tables::z_mass(c, i) ==> #[trigger] z_filled(c, t@, i, k),
            forall|s: int| 0 <= s < t@.len() ==> (#[trigger] t@[s]) / 0x100_0000 <= 8,
            forall|k: int|
                0 <= k < 512 ==> #[trigger] preprocess@[k] == tables::preprocess_entry(k as nat),
        decreases 63 - sym,
    {
        let next: usize = cdf[sym] as usize;
        if next < curr {
            proof {
                assert(!(tables::z_start(c, sym as int) <= c[sym as int]));
            }
            return Err(Error::InvalidData("z CDF is not monotonic"));
        }
        let pmf: usize = next - curr;
        let mut k: usize = 0;
        while k < pmf
            invariant
                k <= pmf,
                sym < 63,
                c == cdf@,
                c.len() == 63,
                curr == tables::z_start(c, sym as int),
                next == c[sym as int],
                pmf == next - curr,
                pmf == tables::z_mass(c, sym as int),
                t@.len() == curr + k,
                forall|i: int| 0 <= i < sym ==> tables::z_start(c, i) <= #[trigger] c[i],
                forall|i: int, j: int|
                    0 <= i < sym && 0 <= j < tables::z_mass(c, i) ==> #[trigger] z_filled(
                        c,
                        t@,
                        i,
                        j,
                    ),
                forall|j: int| 0 <= j < k ==> #[trigger] z_filled(c, t@, sym as int, j),
                forall|s: int| 0 <= s < t@.len() ==> (#[trigger] t@[s]) / 0x100_0000 <= 8,
                forall|k: int|
                    0 <= k < 512 ==> #[trigger] preprocess@[k] == tables::preprocess_entry(
                        k as nat,
                    ),
            decreases pmf - k,
        {
            let v: u32 = preprocess[pmf + k] as u32;
            proof {
                tables::lemma_decode_entry((pmf + k) as nat, sym as int);
                tables::lemma_renorm((pmf + k) as nat);
                assert(v == tables::preprocess_entry((pmf + k) as nat));
            }
            let entry: u32 = v * 0x1_0000 + sym as u32;
            let ghost before = t@;
            t.push(entry);
            proof {
                assert(entry == tables::decode_entry((pmf + k) as nat, sym as int));
                assert forall|i: int, j: int|
                    0 <= i < sym && 0 <= j < tables::z_mass(c, i) implies #[trigger] z_filled(
                    c,
                    t@,
                    i,
                    j,
                ) by {
                    assert(z_filled(c, before, i, j));
                }
                assert forall|j: int| 0 <= j < k + 1 implies #[trigger] z_filled(
                    c,
                    t@,
                    sym as int,
                    j,
                ) by {
                    if j < k {
                        assert(z_filled(c, before, sym as int, j));
                    }
                }
            }
            k = k + 1;
        }
        proof {
            assert forall|i: int, j: int|
                0 <= i < sym + 1 && 0 <= j < tables::z_mass(c, i) implies #[trigger] z_filled(
                c,
                t@,
                i,
                j,
            ) by {
                if i == sym {
                    assert(z_filled(c, t@, sym as int, j));
                }
            }
        }
        curr = next;
        sym = sym + 1;
    }
    proof {
        assert forall|i: int| 0 <= i < 63 implies tables::z_start(c, i) <= #[trigger] c[i] by {}
        assert(tables::z_monotone(c));
    }
    while t.len() < NUM_STATES - 1
        invariant
            c.len() == 63,
            curr == c[62],
            curr <= t@.len() <= 255,
            forall|i: int, k: int|
                0 <= i < 63 && 0 <= k < tables::z_mass(c, i) ==> #[trigger] z_filled(c, t@, i, k),
            forall|s: int| 0 <= s < t@.len() ==> (#[trigger] t@[s]) / 0x100_0000 <= 8,
            forall|s: int| curr <= s < t@.len() ==> #[trigger] t@[s] == 0,
        decreases 255 - t@.len(),
    {
        let ghost before = t@;
        t.push(0);
        proof {
            assert forall|i: int, k: int|
                0 <= i < 63 && 0 <= k < tables::z_mass(c, i) implies #[trigger] z_filled(
                c,
                t@,
                i,
                k,
            ) by {
                assert(z_filled(c, before, i, k));
            }
        }
    }
    let escape: u32 = preprocess[1] as u32 * 0x1_0000 + MAX_Z as u32;
    let ghost before = t@;
    t.push(escape);
    proof {
        tables::lemma_decode_entry(1, 63);
        tables::lemma_renorm(1);
        assert(preprocess@[1] == tables::preprocess_entry(1));
        assert(escape == tables::decode_entry(1, 63));
        reveal(tables::z_decode_table);
        let want = tables::z_decode_table(c);
        assert forall|s: int| 0 <= s < 256 implies t@[s] == want[s] by {
            if s < 255 {
                if c[62] <= s {
                    tables::lemma_z_unowned(c, s, 0);
                } else {
                    lemma_some_owner(c, s, 0);
                    let sym = tables::z_owner(c, s, 0);
                    let k = s - tables::z_start(c, sym);
                    assert(z_filled(c, before, sym, k));
                    tables::lemma_decode_entry((tables::z_mass(c, sym) + k) as nat, sym);
                }
            }
        }
        assert(t@ =~= want);
    }
    Ok(t)
}

/// Slot `k` of a symbol has been filled in.
spec fn z_filled(c: Seq<u8>, t: Seq<u32>, sym: int, k: int) -> bool {
    &&& tables::z_start(c, sym) + k < t.len()
    &&& t[tables::z_start(c, sym) + k] == tables::decode_entry(
        (tables::z_mass(c, sym) + k) as nat,
        sym,
    )
}

/// A state below the last CDF entry belongs to some symbol.
proof fn lemma_some_owner(c: Seq<u8>, s: int, from: int)
    requires
        c.len() == 63,
        0 <= from < 63,
        tables::z_start(c, from) <= s < c[62],
    ensures
        ({
            let sym = tables::z_owner(c, s, from);
            0 <= sym < 63 && tables::z_start(c, sym) <= s < c[sym]
        }),
    decreases 63 - from,
{
    if s >= c[from] {
        lemma_some_owner(c, s, from + 1);
    }
}

/// Decoder over one entropy-coded payload (one substream, or one region of one).
pub struct AnsDecoder<'t> {
    tables: &'t ResidualTables,
    buf: Vec<u8>,
    streams: Vec<Stream>,
    z_preprocess: [u16; 512],
}

/// The byte ranges of threads behind the padding.
pub open spec fn padded(threads: Seq<Seq<u8>>) -> Seq<u8> {
    Seq::new(8, |i: int| 0u8) + container::flat(threads)
}

/// Opening the threads from the `i`-th on, behind the `acc` that have been opened.
pub open spec fn spec_open_all(threads: Seq<Seq<u8>>, i: int, acc: Seq<Reader>) -> core::result::Result<
    Seq<Reader>,
    Error,
>
    decreases threads.len() - i,
{
    if i >= threads.len() {
        Ok(acc)
    } else {
        match spec_open(
            stack::of_bytes(padded(threads)),
            8 + container::flat(threads.take(i + 1)).len() as int,
            threads.len() == 1,
        ) {
            Err(e) => Err(e),
            Ok(r) => spec_open_all(threads, i + 1, acc.push(r)),
        }
    }
}

/// The threads of a decoder over these byte ranges.
pub open spec fn spec_decoder(threads: Seq<Seq<u8>>) -> core::result::Result<Seq<Reader>, Error> {
    if threads.len() == 0 || threads.len() > 16 {
        Err(Error::InvalidData("thread count out of range"))
    } else {
        spec_open_all(threads, 0, Seq::empty())
    }
}

/// The threads from the `i`-th on decode their residual symbols.
pub open spec fn spec_decode_residual(
    call: ResidualCall,
    readers: Seq<Reader>,
    out: Seq<i16>,
    i: int,
) -> (Seq<Reader>, Seq<i16>)
    decreases readers.len() - i,
{
    if !(0 <= i < readers.len()) {
        (readers, out)
    } else {
        let m = call.run(
            (readers[i], out),
            order::residual_order(out.len() as int, i, readers.len() as int),
        );
        spec_decode_residual(call, readers.update(i, m.0), m.1, i + 1)
    }
}

/// The threads from the `i`-th on decode their symbols of a row.
pub open spec fn spec_decode_row(call: ZCall, readers: Seq<Reader>, row: Seq<u8>, i: int) -> (
    Seq<Reader>,
    Seq<u8>,
)
    decreases readers.len() - i,
{
    if !(0 <= i < readers.len()) {
        (readers, row)
    } else {
        let m = call.run(
            (readers[i], row),
            order::z_order(row.len() as int, i, readers.len() as int),
        );
        spec_decode_row(call, readers.update(i, m.0), m.1, i + 1)
    }
}

/// The channels from the `ch`-th on decode their rows of `size` symbols. A CDF that falls ends the
/// decoding; the last component says whether all went through.
pub open spec fn spec_decode_z(
    cdfs: Seq<Seq<u8>>,
    size: nat,
    readers: Seq<Reader>,
    out: Seq<u8>,
    ch: int,
) -> (Seq<Reader>, Seq<u8>, bool)
    decreases cdfs.len() - ch,
{
    if ch >= cdfs.len() {
        (readers, out, true)
    } else if !tables::z_monotone(cdfs[ch]) {
        (readers, out, false)
    } else {
        let call = ZCall {
            transitions: tables::z_decode_table(cdfs[ch]),
            two_states: readers.len() == 1,
        };
        let (from, to) = (ch * size, ch * size + size);
        let m = spec_decode_row(call, readers, out.subrange(from, to), 0);
        spec_decode_z(
            cdfs,
            size,
            m.0,
            out.subrange(0, from) + m.1 + out.subrange(to, out.len() as int),
            ch + 1,
        )
    }
}

/// CDFs as values.
pub open spec fn cdf_views(cdfs: Seq<[u8; MAX_Z]>) -> Seq<Seq<u8>> {
    Seq::new(cdfs.len(), |i: int| cdfs[i]@)
}

/// Some thread was asked to read in front of its data.
pub open spec fn any_failed(readers: Seq<Reader>) -> bool {
    exists|i: int| 0 <= i < readers.len() && (#[trigger] readers[i]).failed
}

spec fn stream_views(streams: Seq<Stream>, buf: Seq<u8>) -> Seq<Reader> {
    Seq::new(streams.len(), |i: int| streams[i].reader(buf))
}

impl<'t> AnsDecoder<'t> {
    /// The threads as values.
    pub closed spec fn readers(&self) -> Seq<Reader> {
        stream_views(self.streams@, self.buf@)
    }

    /// The tables.
    pub closed spec fn tables(&self) -> ResidualTables {
        *self.tables
    }

    /// Between one and sixteen threads with filled windows, and tables to decode with.
    pub closed spec fn wf(&self) -> bool {
        &&& 1 <= self.streams@.len() <= 16
        &&& self.tables.wf()
        &&& forall|i: int|
            0 <= i < self.streams@.len() ==> (#[trigger] self.streams@[i]).wf(self.buf@)
                && self.streams@[i].bit_pos >= 56
        &&& forall|k: int|
            0 <= k < 512 ==> #[trigger] self.z_preprocess@[k] == tables::preprocess_entry(k as nat)
    }

    /// A decoder has a thread, and every thread has a full window.
    pub proof fn lemma_ready(&self)
        requires
            self.wf(),
        ensures
            self.readers().len() >= 1,
            symbols::all_ready(self.readers()),
    {
        assert forall|t: int| 0 <= t < self.readers().len() implies symbols::ready(
            #[trigger] self.readers()[t],
            56,
        ) by {
            assert(self.streams@[t].wf(self.buf@));
            assert(stack::of_bytes(self.buf@).len() == 8 * self.buf@.len());
        }
    }

    /// `threads` are the byte ranges from [`crate::container::split_threads`], in order; they
    /// must be consecutive slices of one payload (they are copied into one padded buffer).
    pub(crate) fn new(tables: &'t ResidualTables, threads: &[&[u8]]) -> (r: Result<Self>)
        requires
            tables.wf(),
        ensures
            match spec_decoder(container::contents(threads@)) {
                Ok(readers) => r matches Ok(d) && d.wf() && d.readers() == readers && d.tables()
                    == *tables,
                Err(e) => r == Err::<AnsDecoder<'t>, Error>(e),
            },
    {
        if threads.len() == 0 || threads.len() > 16 {
            return Err(Error::InvalidData("thread count out of range"));
        }
        let ghost ts = container::contents(threads@);
        let mut buf: Vec<u8> = Vec::new();
        while buf.len() < FRONT_PAD
            invariant
                buf@.len() <= 8,
                forall|i: int| 0 <= i < buf@.len() ==> buf@[i] == 0,
            decreases 8 - buf@.len(),
        {
            buf.push(0);
        }
        let ghost pad = Seq::new(8, |i: int| 0u8);
        let mut ends: Vec<usize> = Vec::new();
        let mut t: usize = 0;
        proof {
            assert(ts.take(0) =~= Seq::empty());
            assert(buf@ =~= pad + container::flat(ts.take(0)));
        }
        while t < threads.len()
            invariant
                t <= threads@.len(),
                ts == container::contents(threads@),
                pad.len() == 8,
                buf@ == pad + container::flat(ts.take(t as int)),
                ends@.len() == t,
                forall|i: int|
                    0 <= i < t ==> #[trigger] ends@[i] == 8 + container::flat(
                        ts.take(i + 1),
                    ).len(),
            decreases threads@.len() - t,
        {
            buf.extend_from_slice(threads[t]);
            proof {
                assert(ts.take(t + 1).drop_last() =~= ts.take(t as int));
                assert(buf@ =~= pad + container::flat(ts.take(t + 1)));
            }
            ends.push(buf.len());
            t = t + 1;
        }
        proof {
            assert(ts.take(t as int) =~= ts);
            assert(buf@ == padded(ts));
        }
        let two_states: bool = threads.len() == 1;
        let mut streams: Vec<Stream> = Vec::new();
        let mut i: usize = 0;
        proof {
            assert(stream_views(streams@, buf@) =~= Seq::empty());
        }
        while i < ends.len()
            invariant
                i <= ends@.len(),
                ends@.len() == ts.len(),
                two_states == (ts.len() == 1),
                buf@ == padded(ts),
                ts == container::contents(threads@),
                1 <= ts.len() <= 16,
                streams@.len() == i,
                forall|i: int|
                    0 <= i < ts.len() ==> #[trigger] ends@[i] == 8 + container::flat(
                        ts.take(i + 1),
                    ).len(),
                forall|j: int|
                    0 <= j < i ==> (#[trigger] streams@[j]).wf(buf@) && streams@[j].bit_pos >= 56,
                spec_open_all(ts, 0, Seq::empty()) == spec_open_all(
                    ts,
                    i as int,
                    stream_views(streams@, buf@),
                ),
            decreases ends@.len() - i,
        {
            let s = Stream::open(&buf, ends[i], two_states)?;
            proof {
                assert(stream_views(streams@.push(s), buf@) =~= stream_views(streams@, buf@).push(
                    s.reader(buf@),
                ));
            }
            streams.push(s);
            i = i + 1;
        }
        Ok(AnsDecoder { tables, buf, streams, z_preprocess: tables::z_decode_preprocess() })
    }

    /// Number of ANS threads in this payload.
    pub fn num_threads(&self) -> (n: usize)
        ensures
            n == self.readers().len(),
    {
        self.streams.len()
    }

    /// True if any thread tried to read in front of its data. Valid streams never do.
    pub fn overrun(&self) -> (b: bool)
        ensures
            b == any_failed(self.readers()),
    {
        let mut i: usize = 0;
        while i < self.streams.len()
            invariant
                i <= self.streams@.len(),
                forall|j: int| 0 <= j < i ==> !(#[trigger] self.readers()[j]).failed,
            decreases self.streams@.len() - i,
        {
            if self.streams[i].overrun {
                proof {
                    assert(self.readers()[i as int].failed);
                }
                return true;
            }
            proof {
                assert(!self.readers()[i as int].failed);
            }
            i = i + 1;
        }
        false
    }

    /// Decode residual symbols.
    ///
    /// `sigma_idx[i]` selects the distribution of symbol `i` (values above 31 are clamped),
    /// `mask[i] == false` means symbol `i` is skipped (not in the stream) and `out[i]` is left
    /// untouched. All three slices have the same length, and that length is part of the format.
    pub fn decode_residual(&mut self, sigma_idx: &[u8], mask: &[bool], out: &mut [i16]) -> (r: Result<
        (),
    >)
        requires
            old(self).wf(),
        ensures
            final(self).wf(),
            final(self).tables() == old(self).tables(),
            final(self).readers().len() == old(self).readers().len(),
            final(out)@.len() == old(out)@.len(),
            ({
                let len = old(out)@.len();
                let call = ResidualCall {
                    tables: old(self).tables(),
                    two_states: old(self).readers().len() == 1,
                    sigma: sigma_idx@,
                    mask: mask@,
                };
                if sigma_idx@.len() != len || mask@.len() != len {
                    &&& r == Err::<(), Error>(
                        Error::InvalidArgument("decode_residual: slice lengths differ"),
                    )
                    &&& final(self).readers() == old(self).readers()
                    &&& final(out)@ == old(out)@
                } else {
                    let m = spec_decode_residual(call, old(self).readers(), old(out)@, 0);
                    &&& final(self).readers() == m.0
                    &&& final(out)@ == m.1
                    &&& r == if any_failed(m.0) {
                        Err::<(), Error>(Error::InvalidData("ANS stream exhausted"))
                    } else {
                        Ok::<(), Error>(())
                    }
                }
            }),
    {
        if sigma_idx.len() != out.len() || mask.len() != out.len() {
            return Err(Error::InvalidArgument("decode_residual: slice lengths differ"));
        }
        let n: usize = self.streams.len();
        let ghost len = out@.len();
        let ghost readers0 = self.readers();
        let ghost out0 = out@;
        let ghost call = ResidualCall {
            tables: *self.tables,
            two_states: n == 1,
            sigma: sigma_idx@,
            mask: mask@,
        };
        let mut i: usize = 0;
        while i < n
            invariant
                i <= n,
                n == self.streams@.len(),
                1 <= n <= 16,
                out@.len() == len,
                sigma_idx@.len() == len,
                mask@.len() == len,
                self.wf(),
                *self.tables == call.tables,
                old(self).tables() == call.tables,
                call.two_states == (n == 1),
                call.sigma == sigma_idx@,
                call.mask == mask@,
                spec_decode_residual(call, readers0, out0, 0) == spec_decode_residual(
                    call,
                    self.readers(),
                    out@,
                    i as int,
                ),
            decreases n - i,
        {
            let mut s: Stream = self.streams[i];
            let args = ResidualArgs {
                tables: self.tables,
                buf: &self.buf,
                two_states: n == 1,
                sigma: sigma_idx,
                mask,
            };
            let ghost before = self.readers();
            proof {
                assert(self.streams@[i as int].wf(self.buf@));
                assert(args.call() == call);
            }
            if n == 1 {
                args.decode_single(&mut s, out);
            } else {
                args.decode_strided(&mut s, out, i, n);
            }
            self.streams.set(i, s);
            proof {
                assert(self.readers() =~= before.update(i as int, s.reader(self.buf@)));
            }
            i = i + 1;
        }
        if self.overrun() {
            return Err(Error::InvalidData("ANS stream exhausted"));
        }
        Ok(())
    }

    /// Decode the hyper-latent. `cdfs[c]` is the normalized CDF of channel `c`, `out` receives
    /// `cdfs.len() * size_per_channel` symbols in `[0, 63]` in channel-major order.
    pub fn decode_z(&mut self, cdfs: &[[u8; MAX_Z]], size_per_channel: usize, out: &mut [u8]) -> (r:
        Result<()>)
        requires
            old(self).wf(),
        ensures
            final(self).wf(),
            final(self).tables() == old(self).tables(),
            final(self).readers().len() == old(self).readers().len(),
            final(out)@.len() == old(out)@.len(),
            ({
                let views = cdf_views(cdfs@);
                let total = cdfs@.len() * size_per_channel;
                let unchanged = final(self).readers() == old(self).readers() && final(out)@ == old(
                    out,
                )@;
                if total > usize::MAX {
                    r == Err::<(), Error>(Error::InvalidArgument("decode_z: size overflow"))
                        && unchanged
                } else if old(out)@.len() != total {
                    r == Err::<(), Error>(
                        Error::InvalidArgument("decode_z: output length mismatch"),
                    ) && unchanged
                } else if size_per_channel == 0 {
                    r == Ok::<(), Error>(()) && unchanged
                } else {
                    let m = spec_decode_z(
                        views,
                        size_per_channel as nat,
                        old(self).readers(),
                        old(out)@,
                        0,
                    );
                    &&& final(self).readers() == m.0
                    &&& final(out)@ == m.1
                    &&& r == if !m.2 {
                        Err::<(), Error>(Error::InvalidData("z CDF is not monotonic"))
                    } else if any_failed(m.0) {
                        Err::<(), Error>(Error::InvalidData("ANS stream exhausted"))
                    } else {
                        Ok::<(), Error>(())
                    }
                }
            }),
            r is Ok ==> forall|i: int| 0 <= i < final(out)@.len() ==> #[trigger] final(out)@[i] <= 63,
    {
        let channels: usize = cdfs.len();
        let total: usize = match channels.checked_mul(size_per_channel) {
            Some(t) => t,
            None => return Err(Error::InvalidArgument("decode_z: size overflow")),
        };
        if out.len() != total {
            return Err(Error::InvalidArgument("decode_z: output length mismatch"));
        }
        if size_per_channel == 0 {
            return Ok(());
        }
        let size: usize = size_per_channel;
        let ghost views = cdf_views(cdfs@);
        let ghost readers0 = self.readers();
        let ghost out0 = out@;
        proof {
            self.lemma_ready();
            symbols::law_hyper_symbols_are_small(views, size as nat, readers0, out0);
        }
        let mut ch: usize = 0;
        while ch < channels
            invariant
                ch <= channels,
                channels == cdfs@.len(),
                views == cdf_views(cdfs@),
                total == channels * size,
                out@.len() == total,
                old(out)@.len() == total,
                size == size_per_channel,
                size > 0,
                readers0 == old(self).readers(),
                out0 == old(out)@,
                self.wf(),
                self.tables() == old(self).tables(),
                self.readers().len() == old(self).readers().len(),
                spec_decode_z(views, size as nat, readers0, out0, 0) == spec_decode_z(
                    views,
                    size as nat,
                    self.readers(),
                    out@,
                    ch as int,
                ),
            decreases channels - ch,
        {
            proof {
                assert(views[ch as int] == cdfs@[ch as int]@);
            }
            let transitions: Vec<u32> = z_transitions(&self.z_preprocess, &cdfs[ch])?;
            proof {
                assert(ch * size + size <= channels * size && 0 <= ch * size) by (nonlinear_arith)
                    requires
                        ch + 1 <= channels,
                ;
            }
            let from: usize = ch * size;
            let to: usize = from + size;
            let ghost before = out@;
            let mut row: Vec<u8> = Vec::new();
            let mut i: usize = 0;
            while i < size
                invariant
                    i <= size,
                    from + size <= out@.len(),
                    row@ == out@.subrange(from as int, from + i),
                decreases size - i,
            {
                row.push(out[from + i]);
                proof {
                    assert(row@ =~= out@.subrange(from as int, from + i + 1));
                }
                i = i + 1;
            }
            self.decode_row(&transitions, &mut row);
            let mut j: usize = 0;
            proof {
                assert(out@ =~= before.subrange(0, from as int) + row@.take(0) + before.subrange(
                    from as int,
                    before.len() as int,
                ));
            }
            while j < size
                invariant
                    j <= size,
                    row@.len() == size,
                    from + size == to,
                    to <= out@.len(),
                    before.len() == out@.len(),
                    out@ == before.subrange(0, from as int) + row@.take(j as int)
                        + before.subrange(from + j, before.len() as int),
                decreases size - j,
            {
                out[from + j] = row[j];
                proof {
                    assert(out@ =~= before.subrange(0, from as int) + row@.take(j + 1)
                        + before.subrange(from + j + 1, before.len() as int));
                }
                j = j + 1;
            }
            proof {
                assert(row@.take(size as int) =~= row@);
                assert(out@ == before.subrange(0, from as int) + row@ + before.subrange(
                    to as int,
                    before.len() as int,
                ));
            }
            ch = ch + 1;
        }
        if self.overrun() {
            return Err(Error::InvalidData("ANS stream exhausted"));
        }
        Ok(())
    }

    /// Decode one channel's row: every thread its own symbols.
    fn decode_row(&mut self, transitions: &Vec<u32>, row: &mut Vec<u8>)
        requires
            old(self).wf(),
            (ZCall { transitions: transitions@, two_states: true }).wf(),
        ensures
            final(self).wf(),
            final(self).tables() == old(self).tables(),
            final(self).readers().len() == old(self).readers().len(),
            final(row)@.len() == old(row)@.len(),
            (final(self).readers(), final(row)@) == spec_decode_row(
                (ZCall {
                    transitions: transitions@,
                    two_states: old(self).readers().len() == 1,
                }),
                old(self).readers(),
                old(row)@,
                0,
            ),
    {
        let n: usize = self.streams.len();
        let ghost call = ZCall { transitions: transitions@, two_states: n == 1 };
        let ghost readers0 = self.readers();
        let ghost row0 = row@;
        let mut i: usize = 0;
        while i < n
            invariant
                i <= n,
                n == self.streams@.len(),
                1 <= n <= 16,
                row@.len() == row0.len(),
                self.wf(),
                call.wf(),
                call.transitions == transitions@,
                call.two_states == (n == 1),
                self.tables() == old(self).tables(),
                spec_decode_row(call, readers0, row0, 0) == spec_decode_row(
                    call,
                    self.readers(),
                    row@,
                    i as int,
                ),
            decreases n - i,
        {
            let mut s: Stream = self.streams[i];
            let args = ZArgs { transitions, buf: &self.buf, two_states: n == 1 };
            let ghost before = self.readers();
            proof {
                assert(self.streams@[i as int].wf(self.buf@));
                assert(args.call() == call);
            }
            args.decode_row(&mut s, row, i, n);
            self.streams.set(i, s);
            proof {
                assert(self.readers() =~= before.update(i as int, s.reader(self.buf@)));
            }
            i = i + 1;
        }
    }
}

} // verus!
