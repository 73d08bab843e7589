//! me-tANS encoder.
//!
//! ANS is last-in-first-out: whatever the decoder reads first must be written last. Callers
//! therefore issue encode calls in the exact reverse of the decoder's call order, and inside a
//! call symbols are walked from the last to the first. See [`super::decoder`] for the layout
//! rules (two interleaved states with one thread, one state per thread otherwise, groups of
//! four symbols per refill).

use vstd::prelude::*;
use vstd::arithmetic::div_mod;
use vstd::arithmetic::power2;

use crate::error::{Error, Result};
use crate::mans::decoder;
use crate::mans::decoder::ResidualCall;
use crate::mans::order;
use crate::mans::order::Step;
use crate::mans::stack;
use crate::mans::tables;
use crate::mans::tables::{ResidualTables, MAX_Z};

verus! {

/// An encoding thread as a value: the bits that it has written, and its coder states.
pub struct Writer {
    pub bits: Seq<bool>,
    pub state1: u8,
    pub state2: u8,
}

impl Writer {
    /// A thread that has written nothing.
    pub open spec fn fresh() -> Writer {
        Writer { bits: Seq::empty(), state1: 0, state2: 0 }
    }

    /// The thread after writing an `n`-bit number.
    pub open spec fn push(self, v: nat, n: nat) -> Writer {
        Writer { bits: self.bits + stack::digits(v, n), ..self }
    }

    /// The coder state that codes a symbol.
    pub open spec fn state(self, second: bool) -> u8 {
        if second {
            self.state2
        } else {
            self.state1
        }
    }

    /// The thread with another coder state.
    pub open spec fn with_state(self, second: bool, state: u8) -> Writer {
        if second {
            Writer { state2: state, ..self }
        } else {
            Writer { state1: state, ..self }
        }
    }

    /// The thread after an encoder entry: low state bits shifted out.
    pub open spec fn shift(self, second: bool, entry: u32) -> Writer {
        self.push(
            tables::low_out(self.state(second), entry),
            tables::bits_out(self.state(second), entry),
        )
    }

    /// The bits with the terminator: the final state or states under a `1` bit.
    pub open spec fn terminated(self, two_states: bool) -> Seq<bool> {
        if two_states {
            self.push((65536 + self.state1 * 256 + self.state2) as nat, 17).bits
        } else {
            self.push((256 + self.state1) as nat, 9).bits
        }
    }

    /// The bits of the thread's byte range: the terminated bits, filled up with zeros.
    pub open spec fn sealed(self, two_states: bool) -> Seq<bool> {
        let t = self.terminated(two_states);
        t + stack::digits(0, ((8 - t.len() % 8) % 8) as nat)
    }
}

/// Forward bit accumulator for one thread.
#[derive(Clone, Debug)]
struct Stream {
    out: Vec<u8>,
    head: u64,
    bit_pos: u32,
    state1: u8,
    state2: u8,
}

/// A number below a power of two has no bits above it.
proof fn lemma_digits_above(v: nat, n: nat, m: nat)
    requires
        v < power2::pow2(n),
    ensures
        stack::digits(v, n + m) == stack::digits(v, n) + stack::digits(0, m),
{
    stack::lemma_digits_split(v, n, m);
    power2::lemma_pow2_pos(n);
    div_mod::lemma_basic_div(v as int, power2::pow2(n) as int);
}

/// Adding a number above the bits of another.
proof fn lemma_digits_join(low: nat, n: nat, high: nat, m: nat)
    requires
        low < power2::pow2(n),
        high < power2::pow2(m),
    ensures
        low + power2::pow2(n) * high < power2::pow2(n + m),
        stack::digits(low + power2::pow2(n) * high, n + m) == stack::digits(low, n)
            + stack::digits(high, m),
{
    let p = power2::pow2(n) as int;
    let q = power2::pow2(m) as int;
    let v = low + p * high;
    power2::lemma_pow2_adds(n, m);
    power2::lemma_pow2_pos(n);
    assert(v < p * q) by (nonlinear_arith)
        requires
            v == low + p * high,
            low < p,
            high + 1 <= q,
            p > 0,
    ;
    assert(v == high * p + low) by (nonlinear_arith)
        requires
            v == low + p * high,
    ;
    div_mod::lemma_fundamental_div_mod_converse(v, p, high as int, low as int);
    stack::lemma_digits_split(v as nat, n, m);
    stack::lemma_number_of_digits(v as nat, n);
    stack::lemma_number_of_digits(low, n);
    div_mod::lemma_small_mod(low, p as nat);
    stack::lemma_digits_of_number(stack::digits(v as nat, n));
    stack::lemma_digits_of_number(stack::digits(low, n));
}

impl Stream {
    /// The thread as a value.
    spec fn writer(&self) -> Writer {
        Writer {
            bits: stack::of_bytes(self.out@) + stack::digits(self.head as nat, self.bit_pos as nat),
            state1: self.state1,
            state2: self.state2,
        }
    }

    /// The accumulator holds no bits above its position.
    spec fn wf(&self) -> bool {
        &&& self.bit_pos <= 63
        &&& self.head < power2::pow2(self.bit_pos as nat)
    }

    fn fresh() -> (s: Self)
        ensures
            s.wf(),
            s.bit_pos == 0,
            s.writer() == Writer::fresh(),
    {
        let s = Stream { out: Vec::new(), head: 0, bit_pos: 0, state1: 0, state2: 0 };
        proof {
            power2::lemma2_to64();
            assert(s.writer().bits =~= Seq::empty());
        }
        s
    }

    fn write(&mut self, n: u64, step: u32)
        requires
            old(self).wf(),
            n < power2::pow2(step as nat),
            old(self).bit_pos + step <= 63,
        ensures
            final(self).wf(),
            final(self).bit_pos == old(self).bit_pos + step,
            final(self).writer() == old(self).writer().push(n as nat, step as nat),
    {
        proof {
            let p = power2::pow2(self.bit_pos as nat) as int;
            lemma_digits_join(self.head as nat, self.bit_pos as nat, n as nat, step as nat);
            power2::lemma2_to64();
            power2::lemma2_to64_rest();
            if self.bit_pos + step < 63 {
                power2::lemma_pow2_strictly_increases((self.bit_pos + step) as nat, 63);
            }
            assert(p * n == n * p) by (nonlinear_arith);
            vstd::bits::lemma_u64_shl_is_mul(n, self.bit_pos as u64);
        }
        let ghost before = self.writer();
        self.head = self.head + (n << (self.bit_pos as u64));
        self.bit_pos = self.bit_pos + step;
        proof {
            assert(self.writer().bits =~= before.push(n as nat, step as nat).bits);
        }
    }

    /// Move whole bytes from the accumulator to the output.
    fn flush(&mut self)
        requires
            old(self).wf(),
        ensures
            final(self).wf(),
            final(self).bit_pos <= 7,
            final(self).writer() == old(self).writer(),
    {
        let ghost before = self.writer();
        while self.bit_pos >= 8
            invariant
                self.wf(),
                self.writer() == before,
            decreases self.bit_pos,
        {
            let ghost h = self.head as nat;
            let ghost out0 = self.out@;
            let ghost rest = (self.bit_pos - 8) as nat;
            let byte: u8 = (self.head % 256) as u8;
            self.out.push(byte);
            self.head = self.head / 256;
            self.bit_pos = self.bit_pos - 8;
            proof {
                power2::lemma2_to64();
                stack::lemma_of_bytes_push(out0, byte);
                stack::lemma_digits_split(h, 8, rest);
                stack::lemma_number_of_digits(h, 8);
                stack::lemma_digits_of_number(stack::digits(h, 8));
                power2::lemma_pow2_adds(8, rest);
                assert(self.writer().bits =~= before.bits);
            }
        }
    }

    /// Append the terminator (`1` bit above the final state or states) and return the bytes.
    fn close(self, two_states: bool) -> (bytes: Vec<u8>)
        requires
            self.wf(),
            self.bit_pos <= 7,
        ensures
            stack::of_bytes(bytes@) == self.writer().sealed(two_states),
    {
        let mut s = self;
        proof {
            power2::lemma2_to64();
        }
        if two_states {
            s.write(65536 + s.state1 as u64 * 256 + s.state2 as u64, 17);
        } else {
            s.write(256 + s.state1 as u64, 9);
        }
        s.flush();
        proof {
            assert(s.writer().bits == self.writer().terminated(two_states));
        }
        if s.bit_pos > 0 {
            let ghost out0 = s.out@;
            let ghost n = s.bit_pos as nat;
            let ghost h = s.head as nat;
            let byte: u8 = {
                proof {
                    power2::lemma_pow2_strictly_increases(n, 8);
                }
                s.head as u8
            };
            s.out.push(byte);
            proof {
                stack::lemma_of_bytes_push(out0, byte);
                lemma_digits_above(h, n, (8 - n) as nat);
                let t = self.writer().terminated(two_states);
                assert(t.len() % 8 == n);
                assert(stack::of_bytes(s.out@) =~= self.writer().sealed(two_states));
            }
        } else {
            proof {
                let t = self.writer().terminated(two_states);
                assert(t.len() % 8 == 0);
                assert(stack::of_bytes(s.out@) =~= self.writer().sealed(two_states));
            }
        }
        s.out
    }
}

/// The symbol that stands for a value: the value itself within the bound, else the escape symbol.
pub open spec fn symbol_for(value: i16, bound: u8) -> int {
    if -(bound as int) < value < bound {
        value as int
    } else {
        -(bound as int)
    }
}

/// The escape code of a value: twice its distance from the bound, plus one if it is negative.
pub open spec fn escape_code(value: i16, bound: u8) -> int {
    if value < 0 {
        2 * (-value - bound) + 1
    } else {
        2 * (value - bound)
    }
}

impl ResidualCall {
    /// If the value lies outside the bound, write its escape code: under a set flag in three
    /// bits, or under a clear one in sixteen.
    #[verifier::opaque]
    pub open spec fn put_outbound(self, w: Writer, i: int, value: i16) -> Writer {
        let code = escape_code(value, self.bound(i));
        if !self.mask[i] || -(self.bound(i) as int) < value < self.bound(i) {
            w
        } else if code >= 8 {
            w.push(code as nat, 17)
        } else {
            w.push((code + 8) as nat, 4)
        }
    }

    /// Encode the symbol that stands for the value.
    #[verifier::opaque]
    pub open spec fn put_inbound(self, w: Writer, i: int, value: i16) -> Writer {
        if !self.mask[i] {
            w
        } else {
            let entry = self.tables.encode@[self.dist(i)]@[symbol_for(value, self.bound(i)) + 128];
            let slot = tables::slot_out(w.state(self.second(i)), entry);
            w.shift(self.second(i), entry).with_state(
                self.second(i),
                self.tables.state_map@[self.dist(i)]@[slot as int],
            )
        }
    }

    /// One step of the order, taken from behind.
    #[verifier::opaque]
    pub open spec fn put_step(self, w: Writer, values: Seq<i16>, step: Step) -> Writer {
        match step {
            Step::Group { at, by } => {
                let a = self.put_outbound(w, at + 3 * by, values[at + 3 * by]);
                let b = self.put_outbound(a, at + 2 * by, values[at + 2 * by]);
                let c = self.put_outbound(b, at + by, values[at + by]);
                let d = self.put_outbound(c, at, values[at]);
                let e = self.put_inbound(d, at + 3 * by, values[at + 3 * by]);
                let f = self.put_inbound(e, at + 2 * by, values[at + 2 * by]);
                let g = self.put_inbound(f, at + by, values[at + by]);
                self.put_inbound(g, at, values[at])
            },
            Step::One(i) => self.put_inbound(self.put_outbound(w, i, values[i]), i, values[i]),
            Step::Refill => w,
        }
    }

    /// The steps of an order, from the back.
    pub open spec fn put_run(self, w: Writer, values: Seq<i16>, steps: Seq<Step>) -> Writer
        decreases steps.len(),
    {
        if steps.len() == 0 {
            w
        } else {
            self.put_run(self.put_step(w, values, steps.last()), values, steps.drop_last())
        }
    }
}

/// Going back over step `k` of an order.
proof fn lemma_put_step(c: ResidualCall, w: Writer, values: Seq<i16>, order: Seq<Step>, k: int)
    requires
        0 <= k < order.len(),
    ensures
        c.put_run(w, values, order.take(k + 1)) == c.put_run(
            c.put_step(w, values, order[k]),
            values,
            order.take(k),
        ),
{
    assert(order.take(k + 1).last() == order[k]);
    assert(order.take(k + 1).drop_last() =~= order.take(k));
}

/// Going back over a step that the encoder takes no part in, and the one before it.
proof fn lemma_put_refilled(c: ResidualCall, w: Writer, values: Seq<i16>, order: Seq<Step>, k: int)
    requires
        0 <= k,
        k + 1 < order.len(),
        order[k + 1] is Refill,
    ensures
        c.put_run(w, values, order.take(k + 2)) == c.put_run(
            c.put_step(w, values, order[k]),
            values,
            order.take(k),
        ),
{
    reveal(ResidualCall::put_step);
    lemma_put_step(c, w, values, order, k + 1);
    lemma_put_step(c, w, values, order, k);
}

impl Stream {
    /// Shift out just enough low state bits that the symbol's slot fits, and return the slot.
    fn shift(&mut self, second: bool, entry: u32) -> (slot: u8)
        requires
            old(self).wf(),
            tables::bits_out(old(self).writer().state(second), entry) <= 11,
            old(self).bit_pos + tables::bits_out(old(self).writer().state(second), entry) <= 63,
        ensures
            final(self).wf(),
            final(self).writer() == old(self).writer().shift(second, entry),
            final(self).bit_pos == old(self).bit_pos + tables::bits_out(
                old(self).writer().state(second),
                entry,
            ),
            slot == tables::slot_out(old(self).writer().state(second), entry),
    {
        let state: u32 = if second { self.state2 as u32 } else { self.state1 as u32 };
        let nbits: u32 = (state + entry / 0x1_0000) / 256;
        proof {
            power2::lemma2_to64();
            power2::lemma_pow2_pos(nbits as nat);
            vstd::bits::lemma_u32_shl_is_mul(1u32, nbits);
            vstd::bits::lemma_u32_shr_is_div(((state + 256) as u32), nbits);
            div_mod::lemma_mod_bound(state as int, power2::pow2(nbits as nat) as int);
        }
        let unit: u32 = 1u32 << nbits;
        self.write((state % unit) as u64, nbits);
        let q: u32 = (state + 256) >> nbits;
        ((q as u64 + entry as u64) % 256) as u8
    }
}

/// Everything that encoding a residual symbol needs besides the thread.
#[derive(Clone, Copy)]
struct ResidualArgs<'a> {
    tables: &'a ResidualTables,
    two_states: bool,
    sigma: &'a [u8],
    mask: &'a [bool],
    values: &'a [i16],
}

impl<'a> ResidualArgs<'a> {
    spec fn call(&self) -> ResidualCall {
        ResidualCall {
            tables: *self.tables,
            two_states: self.two_states,
            sigma: self.sigma@,
            mask: self.mask@,
        }
    }

    spec fn wf(&self) -> bool {
        self.call().wf(self.values@.len())
    }

    fn outbound(&self, s: &mut Stream, i: usize)
        requires
            self.wf(),
            i < self.values@.len(),
            old(s).wf(),
            old(s).bit_pos <= 7,
        ensures
            final(s).wf(),
            final(s).bit_pos <= 7,
            final(s).writer() == self.call().put_outbound(
                old(s).writer(),
                i as int,
                self.values@[i as int],
            ),
    {
        proof {
            reveal(ResidualCall::put_outbound);
        }
        if self.mask[i] {
            let d: usize = tables::dist(self.sigma[i]);
            let bound: i32 = self.tables.bounds[d] as i32;
            let value: i32 = self.values[i] as i32;
            if value >= bound || value <= -bound {
                proof {
                    assert(1 <= self.tables.bounds@[d as int] <= 128);
                    power2::lemma2_to64();
                    assert(power2::pow2(17) == 131072);
                }
                let code: i32 = if value < 0 {
                    2 * (-value - bound) + 1
                } else {
                    2 * (value - bound)
                };
                if code >= 8 {
                    s.write(code as u64, 17);
                } else {
                    s.write(code as u64 + 8, 4);
                }
                s.flush();
            }
        }
    }

    fn inbound(&self, s: &mut Stream, i: usize)
        requires
            self.wf(),
            i < self.values@.len(),
            old(s).wf(),
            old(s).bit_pos <= 52,
        ensures
            final(s).wf(),
            final(s).bit_pos <= old(s).bit_pos + 11,
            final(s).writer() == self.call().put_inbound(
                old(s).writer(),
                i as int,
                self.values@[i as int],
            ),
    {
        proof {
            reveal(ResidualCall::put_inbound);
        }
        if self.mask[i] {
            let d: usize = tables::dist(self.sigma[i]);
            let bound: i32 = self.tables.bounds[d] as i32;
            let value: i32 = self.values[i] as i32;
            let symbol: i32 = if value >= bound || value <= -bound { -bound } else { value };
            let second: bool = self.two_states && i % 2 == 1;
            proof {
                assert(1 <= self.tables.bounds@[d as int] <= 128);
                assert(self.tables.encode@[d as int]@.len() == 256);
                assert(self.tables.state_map@[d as int]@.len() == 256);
                assert(tables::row_small(
                    self.tables.decode@[d as int]@,
                    self.tables.encode@[d as int]@,
                ));
            }
            let entry: u32 = self.tables.encode[d][(symbol + 128) as usize];
            let ghost w = s.writer();
            let slot: u8 = s.shift(second, entry);
            let next: u8 = self.tables.state_map[d][slot as usize];
            if second {
                s.state2 = next;
            } else {
                s.state1 = next;
            }
        }
    }

    fn group(&self, s: &mut Stream, at: usize, by: usize)
        requires
            self.wf(),
            at + 3 * by < self.values@.len(),
            old(s).wf(),
            old(s).bit_pos <= 7,
        ensures
            final(s).wf(),
            final(s).bit_pos <= 7,
            final(s).writer() == self.call().put_step(
                old(s).writer(),
                self.values@,
                Step::Group { at: at as int, by: by as int },
            ),
    {
        proof {
            reveal(ResidualCall::put_step);
        }
        let len: usize = self.values.len();
        self.outbound(s, at + 3 * by);
        self.outbound(s, at + 2 * by);
        self.outbound(s, at + by);
        self.outbound(s, at);
        self.inbound(s, at + 3 * by);
        self.inbound(s, at + 2 * by);
        self.inbound(s, at + by);
        self.inbound(s, at);
        s.flush();
    }

    fn one(&self, s: &mut Stream, i: usize)
        requires
            self.wf(),
            i < self.values@.len(),
            old(s).wf(),
            old(s).bit_pos <= 7,
        ensures
            final(s).wf(),
            final(s).bit_pos <= 7,
            final(s).writer() == self.call().put_step(
                old(s).writer(),
                self.values@,
                Step::One(i as int),
            ),
    {
        proof {
            reveal(ResidualCall::put_step);
        }
        self.outbound(s, i);
        self.inbound(s, i);
        s.flush();
    }

    /// What is left over behind the groups of a single thread.
    fn encode_tail(&self, s: &mut Stream)
        requires
            self.wf(),
            old(s).wf(),
            old(s).bit_pos <= 7,
        ensures
            final(s).wf(),
            final(s).bit_pos <= 7,
            final(s).writer() == self.call().put_run(
                old(s).writer(),
                self.values@,
                order::residual_tail(self.values@.len() as int),
            ),
    {
        let len: usize = self.values.len();
        let base: usize = len / 4 * 4;
        let left: usize = len - base;
        let ghost call = self.call();
        let ghost vals = self.values@;
        let ghost tail = order::residual_tail(len as int);
        let ghost mut k: int = tail.len() as int;
        proof {
            assert(left == len % 4);
            assert(tail.take(k) =~= tail);
        }
        if left % 2 == 1 {
            proof {
                lemma_put_refilled(call, s.writer(), vals, tail, k - 2);
                k = k - 2;
            }
            self.one(s, base + (left - 1));
        }
        if left >= 2 {
            proof {
                lemma_put_refilled(call, s.writer(), vals, tail, k - 2);
            }
            self.one(s, base + 1);
            proof {
                lemma_put_step(call, s.writer(), vals, tail, k - 3);
                k = k - 3;
            }
            self.one(s, base);
        }
        proof {
            assert(tail.take(0) =~= Seq::empty());
        }
    }

    /// All symbols on one thread, with two states.
    fn encode_single(&self, s: &mut Stream)
        requires
            self.wf(),
            old(s).wf(),
            old(s).bit_pos <= 7,
        ensures
            final(s).wf(),
            final(s).bit_pos <= 7,
            final(s).writer() == self.call().put_run(
                old(s).writer(),
                self.values@,
                order::residual_order(self.values@.len() as int, 0, 1),
            ),
    {
        let len: usize = self.values.len();
        let ghost call = self.call();
        let ghost vals = self.values@;
        let ghost w0 = s.writer();
        let ghost order = order::residual_order(len as int, 0, 1);
        let ghost tail = order::residual_tail(len as int);
        let groups: usize = len / 4;
        self.encode_tail(s);
        proof {
            lemma_put_behind(call, w0, vals, order::groups(groups as int, 0, 1), tail);
            assert(order == order::groups(groups as int, 0, 1) + tail);
            assert(order.take(groups as int) =~= order::groups(groups as int, 0, 1));
        }
        let mut g: usize = groups;
        while g > 0
            invariant
                g <= groups,
                groups == len as int / 4,
                len == self.values@.len(),
                call == self.call(),
                vals == self.values@,
                self.wf(),
                s.wf(),
                s.bit_pos <= 7,
                order == order::residual_order(len as int, 0, 1),
                call.put_run(w0, vals, order) == call.put_run(
                    s.writer(),
                    vals,
                    order.take(g as int),
                ),
            decreases g,
        {
            g = g - 1;
            proof {
                lemma_put_step(call, s.writer(), vals, order, g as int);
                assert(order[g as int] == Step::Group { at: 4 * g as int, by: 1 });
            }
            self.group(s, 4 * g, 1);
        }
        proof {
            assert(order.take(0) =~= Seq::empty());
        }
    }
}

/// The steps at the back of an order are encoded first.
proof fn lemma_put_behind(
    c: ResidualCall,
    w: Writer,
    values: Seq<i16>,
    front: Seq<Step>,
    back: Seq<Step>,
)
    ensures
        c.put_run(w, values, front + back) == c.put_run(c.put_run(w, values, back), values, front),
    decreases back.len(),
{
    if back.len() == 0 {
        assert(front + back =~= front);
    } else {
        assert((front + back).drop_last() =~= front + back.drop_last());
        lemma_put_behind(c, c.put_step(w, values, back.last()), values, front, back.drop_last());
    }
}

/// Number of symbols of thread `first` of `n` behind its groups.
fn leftover(len: usize, first: usize, n: usize) -> (count: usize)
    requires
        1 <= n <= 16,
        first < n,
    ensures
        count == order::count_from(
            len as int,
            len as int / (4 * n as int) * (4 * n as int) + first,
            n as int,
        ),
        count <= 4,
        len as int / (4 * n as int) * (4 * n as int) <= len,
{
    let span: usize = 4 * n;
    proof {
        order::lemma_groups_end(len as int, n as int, first as int);
    }
    let left: usize = len - len / span * span;
    if left <= first {
        return 0;
    }
    let a: usize = left - first;
    proof {
        let q = (a - 1) as int / (n as int);
        let r = (a - 1) as int % (n as int);
        div_mod::lemma_fundamental_div_mod((a - 1) as int, n as int);
        div_mod::lemma_mod_bound((a - 1) as int, n as int);
        assert(a - 1 + n == (q + 1) * n + r) by (nonlinear_arith)
            requires
                a - 1 == n * q + r,
        ;
        div_mod::lemma_fundamental_div_mod_converse(a - 1 + n, n as int, q + 1, r);
        assert(q <= 3) by (nonlinear_arith)
            requires
                a - 1 == n * q + r,
                a <= 4 * n,
                r >= 0,
                n >= 1,
        ;
        assert(q >= 0) by {
            div_mod::lemma_div_pos_is_pos((a - 1) as int, n as int);
        }
    }
    (a - 1) / n + 1
}

impl<'a> ResidualArgs<'a> {
    /// One of several threads: symbols `first, first + n, ...`, single state.
    fn encode_strided(&self, s: &mut Stream, first: usize, n: usize)
        requires
            self.wf(),
            old(s).wf(),
            old(s).bit_pos <= 7,
            2 <= n <= 16,
            first < n,
        ensures
            final(s).wf(),
            final(s).bit_pos <= 7,
            final(s).writer() == self.call().put_run(
                old(s).writer(),
                self.values@,
                order::residual_order(self.values@.len() as int, first as int, n as int),
            ),
    {
        let len: usize = self.values.len();
        let ghost call = self.call();
        let ghost vals = self.values@;
        let ghost w0 = s.writer();
        let ghost order = order::residual_order(len as int, first as int, n as int);
        let span: usize = 4 * n;
        let count: usize = len / span;
        let ones: usize = leftover(len, first, n);
        let base: usize = count * span;
        let ghost done = base + first as int;
        let mut j: usize = ones;
        proof {
            assert(order.take(count + 2 * ones) =~= order);
        }
        while j > 0
            invariant
                j <= ones,
                ones <= 4,
                2 <= n <= 16,
                first < n,
                span == 4 * n,
                len == self.values@.len(),
                call == self.call(),
                vals == self.values@,
                self.wf(),
                s.wf(),
                s.bit_pos <= 7,
                count == len as int / (4 * n as int),
                base == count * span,
                base <= len,
                done == base + first as int,
                done == len as int / (4 * n as int) * (4 * n as int) + first,
                ones == order::count_from(len as int, done, n as int),
                order == order::residual_order(len as int, first as int, n as int),
                call.put_run(w0, vals, order) == call.put_run(
                    s.writer(),
                    vals,
                    order.take(count + 2 * j),
                ),
            decreases j,
        {
            j = j - 1;
            proof {
                order::lemma_count_from(len as int, done, n as int, j as int);
                let k = count + 2 * j;
                assert(order[k] == Step::One(done + n as int * j));
                assert(order[k + 1] is Refill);
                lemma_put_refilled(call, s.writer(), vals, order, k);
                assert(n as int * j >= 0) by (nonlinear_arith);
            }
            self.one(s, base + (first + n * j));
        }
        let mut g: usize = count;
        while g > 0
            invariant
                g <= count,
                2 <= n <= 16,
                first < n,
                span == 4 * n,
                len == self.values@.len(),
                call == self.call(),
                vals == self.values@,
                self.wf(),
                s.wf(),
                s.bit_pos <= 7,
                count == len as int / (4 * n as int),
                order == order::residual_order(len as int, first as int, n as int),
                call.put_run(w0, vals, order) == call.put_run(
                    s.writer(),
                    vals,
                    order.take(g as int),
                ),
            decreases g,
        {
            g = g - 1;
            proof {
                lemma_put_step(call, s.writer(), vals, order, g as int);
                order::lemma_group_within(len as int, n as int, first as int, g as int);
                assert(order[g as int] == Step::Group { at: first + 4 * n * g, by: n as int });
                assert(span * g == 4 * n * g) by (nonlinear_arith)
                    requires
                        span == 4 * n,
                ;
            }
            self.group(s, first + span * g, n);
        }
        proof {
            assert(order.take(0) =~= Seq::empty());
        }
    }
}

/// What a call that encodes a row of hyper-latent symbols works with.
pub struct PutZCall {
    /// Symbol to encoder entry; zero for a symbol without mass.
    pub transitions: Seq<u32>,
    /// Symbols alternate between two coder states.
    pub two_states: bool,
}

impl PutZCall {
    /// Whether a symbol is coded with the second state.
    pub open spec fn second(self, i: int) -> bool {
        self.two_states && i % 2 == 1
    }

    /// Symbol 63 and symbols without mass are escape-coded.
    pub open spec fn escapes(self, value: u8) -> bool {
        value == 63 || self.transitions[value as int] == 0
    }

    /// Write an escape-coded symbol in six bits.
    #[verifier::opaque]
    pub open spec fn put_outbound(self, w: Writer, value: u8) -> Writer {
        if self.escapes(value) {
            w.push(value as nat, 6)
        } else {
            w
        }
    }

    /// Encode the symbol, or the escape symbol in its place.
    #[verifier::opaque]
    pub open spec fn put_inbound(self, w: Writer, i: int, value: u8) -> Writer {
        let entry = self.transitions[if self.escapes(value) {
            63
        } else {
            value as int
        }];
        let slot = tables::slot_out(w.state(self.second(i)), entry);
        w.shift(self.second(i), entry).with_state(self.second(i), slot as u8)
    }

    /// One step of the order, taken from behind.
    #[verifier::opaque]
    pub open spec fn put_step(self, w: Writer, row: Seq<u8>, step: Step) -> Writer {
        match step {
            Step::Group { at, by } => {
                let a = self.put_outbound(w, row[at + 3 * by]);
                let b = self.put_outbound(a, row[at + 2 * by]);
                let c = self.put_outbound(b, row[at + by]);
                let d = self.put_outbound(c, row[at]);
                let e = self.put_inbound(d, at + 3 * by, row[at + 3 * by]);
                let f = self.put_inbound(e, at + 2 * by, row[at + 2 * by]);
                let g = self.put_inbound(f, at + by, row[at + by]);
                self.put_inbound(g, at, row[at])
            },
            Step::One(i) => self.put_inbound(self.put_outbound(w, row[i]), i, row[i]),
            Step::Refill => w,
        }
    }

    /// The steps of an order, from the back.
    pub open spec fn put_run(self, w: Writer, row: Seq<u8>, steps: Seq<Step>) -> Writer
        decreases steps.len(),
    {
        if steps.len() == 0 {
            w
        } else {
            self.put_run(self.put_step(w, row, steps.last()), row, steps.drop_last())
        }
    }

    /// There is an entry for each symbol, and a coded one shifts out at most eight bits.
    pub open spec fn wf(self) -> bool {
        &&& self.transitions.len() == 64
        &&& self.transitions[63] != 0
        &&& forall|sym: int, state: u8|
            0 <= sym < 64 && self.transitions[sym] != 0 ==> #[trigger] tables::bits_out(
                state,
                self.transitions[sym],
            ) <= 8
    }
}

/// Going back over step `k` of an order.
proof fn lemma_put_z_step(c: PutZCall, w: Writer, row: Seq<u8>, order: Seq<Step>, k: int)
    requires
        0 <= k < order.len(),
    ensures
        c.put_run(w, row, order.take(k + 1)) == c.put_run(
            c.put_step(w, row, order[k]),
            row,
            order.take(k),
        ),
{
    assert(order.take(k + 1).last() == order[k]);
    assert(order.take(k + 1).drop_last() =~= order.take(k));
}

/// Everything that encoding a hyper-latent symbol needs besides the thread.
#[derive(Clone, Copy)]
struct ZArgs<'a> {
    transitions: &'a Vec<u32>,
    two_states: bool,
    row: &'a [u8],
}

impl<'a> ZArgs<'a> {
    spec fn call(&self) -> PutZCall {
        PutZCall { transitions: self.transitions@, two_states: self.two_states }
    }

    spec fn wf(&self) -> bool {
        &&& self.call().wf()
        &&& forall|i: int| 0 <= i < self.row@.len() ==> #[trigger] self.row@[i] <= 63
    }

    fn outbound(&self, s: &mut Stream, i: usize)
        requires
            self.wf(),
            i < self.row@.len(),
            old(s).wf(),
            old(s).bit_pos <= 57,
        ensures
            final(s).wf(),
            final(s).bit_pos <= old(s).bit_pos + 6,
            final(s).writer() == self.call().put_outbound(old(s).writer(), self.row@[i as int]),
    {
        proof {
            reveal(PutZCall::put_outbound);
            power2::lemma2_to64();
            assert(self.row@[i as int] <= 63);
        }
        let value: u8 = self.row[i];
        if value == 63 || self.transitions[value as usize] == 0 {
            s.write(value as u64, 6);
        }
    }

    fn inbound(&self, s: &mut Stream, i: usize)
        requires
            self.wf(),
            i < self.row@.len(),
            old(s).wf(),
            old(s).bit_pos <= 55,
        ensures
            final(s).wf(),
            final(s).bit_pos <= old(s).bit_pos + 8,
            final(s).writer() == self.call().put_inbound(
                old(s).writer(),
                i as int,
                self.row@[i as int],
            ),
    {
        proof {
            reveal(PutZCall::put_inbound);
            assert(self.row@[i as int] <= 63);
        }
        let value: u8 = self.row[i];
        let symbol: usize = if value == 63 || self.transitions[value as usize] == 0 {
            MAX_Z
        } else {
            value as usize
        };
        let second: bool = self.two_states && i % 2 == 1;
        let entry: u32 = self.transitions[symbol];
        proof {
            assert(tables::bits_out(
                s.writer().state(second),
                self.transitions@[symbol as int],
            ) <= 8);
        }
        let slot: u8 = s.shift(second, entry);
        if second {
            s.state2 = slot;
        } else {
            s.state1 = slot;
        }
    }

    fn group(&self, s: &mut Stream, at: usize, by: usize)
        requires
            self.wf(),
            at + 3 * by < self.row@.len(),
            old(s).wf(),
            old(s).bit_pos <= 7,
        ensures
            final(s).wf(),
            final(s).bit_pos <= 7,
            final(s).writer() == self.call().put_step(
                old(s).writer(),
                self.row@,
                Step::Group { at: at as int, by: by as int },
            ),
    {
        proof {
            reveal(PutZCall::put_step);
        }
        let len: usize = self.row.len();
        self.outbound(s, at + 3 * by);
        self.outbound(s, at + 2 * by);
        self.outbound(s, at + by);
        self.outbound(s, at);
        self.inbound(s, at + 3 * by);
        self.inbound(s, at + 2 * by);
        self.inbound(s, at + by);
        self.inbound(s, at);
        s.flush();
    }

    fn one(&self, s: &mut Stream, i: usize)
        requires
            self.wf(),
            i < self.row@.len(),
            old(s).wf(),
            old(s).bit_pos <= 49,
        ensures
            final(s).wf(),
            final(s).bit_pos <= old(s).bit_pos + 14,
            final(s).writer() == self.call().put_step(
                old(s).writer(),
                self.row@,
                Step::One(i as int),
            ),
    {
        proof {
            reveal(PutZCall::put_step);
        }
        self.outbound(s, i);
        self.inbound(s, i);
    }

    /// The symbols of a row that belong to thread `first` of `n`.
    fn encode_row(&self, s: &mut Stream, first: usize, n: usize)
        requires
            self.wf(),
            old(s).wf(),
            old(s).bit_pos <= 7,
            1 <= n <= 16,
            first < n,
        ensures
            final(s).wf(),
            final(s).bit_pos <= 7,
            final(s).writer() == self.call().put_run(
                old(s).writer(),
                self.row@,
                order::z_order(self.row@.len() as int, first as int, n as int),
            ),
    {
        let len: usize = self.row.len();
        let ghost call = self.call();
        let ghost row = self.row@;
        let ghost w0 = s.writer();
        let ghost order = order::z_order(len as int, first as int, n as int);
        let span: usize = 4 * n;
        let count: usize = len / span;
        let ones: usize = leftover(len, first, n);
        let base: usize = count * span;
        let ghost done = base + first as int;
        let mut j: usize = ones;
        proof {
            reveal(PutZCall::put_step);
            assert(order.take(2 * count + ones + 1) =~= order);
            assert(order[2 * count + ones] is Refill);
            lemma_put_z_step(call, s.writer(), row, order, 2 * count + ones);
        }
        while j > 0
            invariant
                j <= ones,
                ones <= 4,
                1 <= n <= 16,
                first < n,
                span == 4 * n,
                len == self.row@.len(),
                call == self.call(),
                row == self.row@,
                self.wf(),
                s.wf(),
                s.bit_pos <= 7 + 14 * (ones - j),
                count == len as int / (4 * n as int),
                base == count * span,
                base <= len,
                done == base + first as int,
                done == len as int / (4 * n as int) * (4 * n as int) + first,
                ones == order::count_from(len as int, done, n as int),
                order == order::z_order(len as int, first as int, n as int),
                call.put_run(w0, row, order) == call.put_run(
                    s.writer(),
                    row,
                    order.take(2 * count + j),
                ),
            decreases j,
        {
            j = j - 1;
            proof {
                order::lemma_count_from(len as int, done, n as int, j as int);
                let k = 2 * count + j;
                lemma_put_z_step(call, s.writer(), row, order, k);
                assert(order[k] == Step::One(done + n as int * j));
                assert(n as int * j >= 0) by (nonlinear_arith);
            }
            self.one(s, base + (first + n * j));
        }
        s.flush();
        let mut g: usize = count;
        while g > 0
            invariant
                g <= count,
                1 <= n <= 16,
                first < n,
                span == 4 * n,
                len == self.row@.len(),
                call == self.call(),
                row == self.row@,
                self.wf(),
                s.wf(),
                s.bit_pos <= 7,
                count == len as int / (4 * n as int),
                order == order::z_order(len as int, first as int, n as int),
                call.put_run(w0, row, order) == call.put_run(
                    s.writer(),
                    row,
                    order.take(2 * g),
                ),
            decreases g,
        {
            g = g - 1;
            proof {
                reveal(PutZCall::put_step);
                let k = 2 * g as int;
                lemma_put_z_step(call, s.writer(), row, order, k + 1);
                lemma_put_z_step(call, s.writer(), row, order, k);
                order::lemma_group_within(len as int, n as int, first as int, g as int);
                assert(k / 2 == g);
                assert((k + 1) % 2 == 1);
                assert(order[k] == Step::Group { at: first + 4 * n * g, by: n as int });
                assert(order[k + 1] is Refill);
                assert(span * g == 4 * n * g) by (nonlinear_arith)
                    requires
                        span == 4 * n,
                ;
            }
            self.group(s, first + span * g, n);
        }
        proof {
            assert(order.take(0) =~= Seq::empty());
        }
    }
}

/// The table of a rising CDF encodes every symbol.
pub proof fn lemma_z_call(cdf: Seq<u8>, two_states: bool)
    requires
        cdf.len() == 63,
        tables::z_monotone(cdf),
    ensures
        (PutZCall { transitions: tables::z_encode_table(cdf), two_states }).wf(),
{
    let call = PutZCall { transitions: tables::z_encode_table(cdf), two_states };
    reveal(tables::z_encode_table);
    tables::lemma_z_encode_nonzero(cdf, 63);
    assert forall|sym: int, state: u8|
        0 <= sym < 64 && call.transitions[sym] != 0 implies #[trigger] tables::bits_out(
        state,
        call.transitions[sym],
    ) <= 8 by {
        tables::lemma_z_encode_nonzero(cdf, sym);
        tables::lemma_step(
            state,
            tables::z_mass(cdf, sym) as nat,
            tables::z_start(cdf, sym),
            call.transitions[sym],
        );
    }
}

/// The encoder entry of a symbol with the given mass and start, zero for one without mass.
fn z_entry(delta_bits: &[u16; 256], pmf: u32, start: u32) -> (r: u32)
    requires
        pmf <= 255,
        start + pmf <= 256,
        forall|p: int| 0 <= p < 256 ==> #[trigger] delta_bits@[p] == tables::delta_entry(p as nat),
    ensures
        r == if pmf == 0 {
            0
        } else {
            tables::encode_entry(pmf as nat, start as nat)
        },
{
    if pmf == 0 {
        return 0;
    }
    proof {
        tables::lemma_encode_entry(pmf as nat, start as nat);
        assert(delta_bits@[pmf as int] == tables::delta_entry(pmf as nat));
    }
    let adder: u32 = if start >= pmf { start - pmf } else { start + 256 - pmf };
    delta_bits[pmf as usize] as u32 * 0x1_0000 + adder
}

/// The entry of a symbol's mass and start is what the table of its CDF holds.
proof fn lemma_z_entry(cdf: Seq<u8>, sym: int, entry: u32)
    requires
        cdf.len() == 63,
        0 <= sym < 64,
        tables::z_mass(cdf, sym) >= 0,
        entry == if tables::z_mass(cdf, sym) == 0 {
            0
        } else {
            tables::encode_entry(tables::z_mass(cdf, sym) as nat, tables::z_start(cdf, sym))
        },
    ensures
        tables::z_encode_table(cdf)[sym] == entry,
{
    reveal(tables::z_encode_table);
}

/// The encoder table of a hyper-latent CDF: symbol to `delta_bits << 16 | adder`, zero for a
/// symbol without mass.
fn z_transitions(delta_bits: &[u16; 256], cdf: &[u8; MAX_Z]) -> (r: Result<Vec<u32>>)
    requires
        forall|p: int| 0 <= p < 256 ==> #[trigger] delta_bits@[p] == tables::delta_entry(p as nat),
    ensures
        tables::z_monotone(cdf@) ==> (r matches Ok(t) && t@ == tables::z_encode_table(cdf@)),
        !tables::z_monotone(cdf@) ==> r == Err::<Vec<u32>, Error>(
            Error::InvalidArgument("z CDF is not monotonic"),
        ),
        r matches Ok(t) ==> (PutZCall { transitions: t@, two_states: true }).wf(),
{
    let ghost c = cdf@;
    let mut t: Vec<u32> = Vec::new();
    let mut curr: u32 = 0;
    while t.len() < MAX_Z
        invariant
            t@.len() <= 63,
            c == cdf@,
            c.len() == 63,
            t@.len() < 63 ==> curr == tables::z_start(c, t@.len() as int),
            curr <= 255,
            forall|i: int| 0 <= i < t@.len() ==> tables::z_start(c, i) <= #[trigger] c[i],
            forall|i: int|
                0 <= i < t@.len() ==> #[trigger] t@[i] == tables::z_encode_table(c)[i],
            forall|p: int|
                0 <= p < 256 ==> #[trigger] delta_bits@[p] == tables::delta_entry(p as nat),
        decreases 63 - t@.len(),
    {
        let sym: usize = t.len();
        let next: u32 = cdf[sym] as u32;
        if next < curr {
            proof {
                assert(!(tables::z_start(c, sym as int) <= c[sym as int]));
            }
            return Err(Error::InvalidArgument("z CDF is not monotonic"));
        }
        let entry: u32 = z_entry(delta_bits, next - curr, curr);
        proof {
            lemma_z_entry(c, sym as int, entry);
        }
        t.push(entry);
        curr = next;
    }
    let escape: u32 = z_entry(delta_bits, 1, 255);
    t.push(escape);
    proof {
        assert(tables::z_monotone(c));
        lemma_z_entry(c, 63, escape);
        assert(tables::z_encode_table(c).len() == 64) by {
            reveal(tables::z_encode_table);
        }
        assert(t@ =~= tables::z_encode_table(c));
        lemma_z_call(c, true);
    }
    Ok(t)
}

/// Encoder for one entropy-coded payload.
pub struct AnsEncoder<'t> {
    tables: &'t ResidualTables,
    streams: Vec<Stream>,
    z_delta_bits: [u16; 256],
}

/// What each thread has written after encoding its residual symbols.
pub open spec fn spec_encode_residual(
    call: ResidualCall,
    writers: Seq<Writer>,
    values: Seq<i16>,
) -> Seq<Writer> {
    Seq::new(
        writers.len(),
        |i: int|
            call.put_run(
                writers[i],
                values,
                order::residual_order(values.len() as int, i, writers.len() as int),
            ),
    )
}

/// What each thread has written after encoding its symbols of a row.
pub open spec fn spec_encode_row(call: PutZCall, writers: Seq<Writer>, row: Seq<u8>) -> Seq<Writer> {
    Seq::new(
        writers.len(),
        |i: int|
            call.put_run(
                writers[i],
                row,
                order::z_order(row.len() as int, i, writers.len() as int),
            ),
    )
}

/// The first `ch` channels encode their rows of `size` symbols, the last one first. A CDF that
/// falls ends the encoding; the second component says whether all went through.
pub open spec fn spec_encode_z(
    cdfs: Seq<Seq<u8>>,
    size: nat,
    writers: Seq<Writer>,
    symbols: Seq<u8>,
    ch: int,
) -> (Seq<Writer>, bool)
    decreases ch,
{
    if ch <= 0 {
        (writers, true)
    } else if !tables::z_monotone(cdfs[ch - 1]) {
        (writers, false)
    } else {
        let call = PutZCall {
            transitions: tables::z_encode_table(cdfs[ch - 1]),
            two_states: writers.len() == 1,
        };
        let from = (ch - 1) * size;
        spec_encode_z(
            cdfs,
            size,
            spec_encode_row(call, writers, symbols.subrange(from, from + size)),
            symbols,
            ch - 1,
        )
    }
}

/// Every symbol is in range.
pub open spec fn symbols_in_range(symbols: Seq<u8>) -> bool {
    forall|i: int| 0 <= i < symbols.len() ==> #[trigger] symbols[i] <= 63
}

spec fn stream_views(streams: Seq<Stream>) -> Seq<Writer> {
    Seq::new(streams.len(), |i: int| streams[i].writer())
}

impl<'t> AnsEncoder<'t> {
    /// The threads as values.
    pub closed spec fn writers(&self) -> Seq<Writer> {
        stream_views(self.streams@)
    }

    /// The tables.
    pub closed spec fn tables(&self) -> ResidualTables {
        *self.tables
    }

    /// Between one and sixteen flushed threads, and tables to encode with.
    pub closed spec fn wf(&self) -> bool {
        &&& 1 <= self.streams@.len() <= 16
        &&& self.tables.wf()
        &&& forall|i: int|
            0 <= i < self.streams@.len() ==> (#[trigger] self.streams@[i]).wf()
                && self.streams@[i].bit_pos <= 7
        &&& forall|p: int|
            0 <= p < 256 ==> #[trigger] self.z_delta_bits@[p] == tables::delta_entry(p as nat)
    }

    pub(crate) fn new(tables: &'t ResidualTables, num_threads: usize) -> (r: Result<Self>)
        requires
            tables.wf(),
        ensures
            if num_threads == 0 || num_threads > 16 {
                r == Err::<AnsEncoder<'t>, Error>(
                    Error::InvalidArgument("thread count out of range"),
                )
            } else {
                r matches Ok(e) && e.wf() && e.tables() == *tables && e.writers() == Seq::new(
                    num_threads as nat,
                    |i: int| Writer::fresh(),
                )
            },
    {
        if num_threads == 0 || num_threads > 16 {
            return Err(Error::InvalidArgument("thread count out of range"));
        }
        let mut streams: Vec<Stream> = Vec::new();
        while streams.len() < num_threads
            invariant
                streams@.len() <= num_threads,
                forall|i: int|
                    0 <= i < streams@.len() ==> (#[trigger] streams@[i]).wf()
                        && streams@[i].bit_pos <= 7 && streams@[i].writer() == Writer::fresh(),
            decreases num_threads - streams@.len(),
        {
            streams.push(Stream::fresh());
        }
        proof {
            assert(stream_views(streams@) =~= Seq::new(
                num_threads as nat,
                |i: int| Writer::fresh(),
            ));
        }
        Ok(AnsEncoder { tables, streams, z_delta_bits: tables::z_encode_delta_bits() })
    }

    /// Take out a thread to work on it.
    fn take(&mut self, i: usize) -> (s: Stream)
        requires
            old(self).wf(),
            i < old(self).writers().len(),
        ensures
            final(self).wf(),
            final(self).tables() == old(self).tables(),
            final(self).writers() == old(self).writers().update(i as int, Writer::fresh()),
            s.wf(),
            s.bit_pos <= 7,
            s.writer() == old(self).writers()[i as int],
    {
        let mut s = Stream::fresh();
        let ghost before = self.streams@;
        proof {
            assert(self.streams@[i as int].wf());
        }
        self.streams.set_and_swap(i, &mut s);
        proof {
            assert(self.writers() =~= stream_views(before).update(i as int, Writer::fresh()));
        }
        s
    }

    /// Put a thread back.
    fn put(&mut self, i: usize, s: Stream)
        requires
            old(self).wf(),
            i < old(self).writers().len(),
            s.wf(),
            s.bit_pos <= 7,
        ensures
            final(self).wf(),
            final(self).tables() == old(self).tables(),
            final(self).writers() == old(self).writers().update(i as int, s.writer()),
    {
        let ghost before = self.streams@;
        self.streams.set(i, s);
        proof {
            assert(self.writers() =~= stream_views(before).update(i as int, s.writer()));
        }
    }

    /// Encode residual symbols. Mirror of [`super::decoder::AnsDecoder::decode_residual`];
    /// `values` outside the distribution's bound are escape-coded.
    pub fn encode_residual(&mut self, sigma_idx: &[u8], mask: &[bool], values: &[i16]) -> (r: Result<
        (),
    >)
        requires
            old(self).wf(),
        ensures
            final(self).wf(),
            final(self).tables() == old(self).tables(),
            if sigma_idx@.len() != values@.len() || mask@.len() != values@.len() {
                &&& r == Err::<(), Error>(
                    Error::InvalidArgument("encode_residual: slice lengths differ"),
                )
                &&& final(self).writers() == old(self).writers()
            } else {
                &&& r == Ok::<(), Error>(())
                &&& final(self).writers() == spec_encode_residual(
                    (ResidualCall {
                        tables: old(self).tables(),
                        two_states: old(self).writers().len() == 1,
                        sigma: sigma_idx@,
                        mask: mask@,
                    }),
                    old(self).writers(),
                    values@,
                )
            },
    {
        if sigma_idx.len() != values.len() || mask.len() != values.len() {
            return Err(Error::InvalidArgument("encode_residual: slice lengths differ"));
        }
        let n: usize = self.streams.len();
        let args = ResidualArgs {
            tables: self.tables,
            two_states: n == 1,
            sigma: sigma_idx,
            mask,
            values,
        };
        let ghost call = args.call();
        let ghost before = self.writers();
        let ghost after = spec_encode_residual(call, before, values@);
        let mut i: usize = 0;
        while i < n
            invariant
                i <= n,
                n == before.len(),
                n == self.writers().len(),
                1 <= n <= 16,
                self.wf(),
                self.tables() == old(self).tables(),
                call == args.call(),
                args.wf(),
                args.values@ == values@,
                after == spec_encode_residual(call, before, values@),
                forall|j: int| 0 <= j < i ==> #[trigger] self.writers()[j] == after[j],
                forall|j: int| i <= j < n ==> #[trigger] self.writers()[j] == before[j],
            decreases n - i,
        {
            let mut s: Stream = self.take(i);
            if n == 1 {
                args.encode_single(&mut s);
            } else {
                args.encode_strided(&mut s, i, n);
            }
            proof {
                assert(s.writer() == after[i as int]);
            }
            self.put(i, s);
            i = i + 1;
        }
        proof {
            assert(self.writers() =~= after);
        }
        Ok(())
    }

    /// Encode one channel's row: every thread its own symbols.
    fn encode_row(&mut self, transitions: &Vec<u32>, row: &[u8])
        requires
            old(self).wf(),
            (PutZCall { transitions: transitions@, two_states: true }).wf(),
            symbols_in_range(row@),
        ensures
            final(self).wf(),
            final(self).tables() == old(self).tables(),
            final(self).writers() == spec_encode_row(
                (PutZCall {
                    transitions: transitions@,
                    two_states: old(self).writers().len() == 1,
                }),
                old(self).writers(),
                row@,
            ),
    {
        let n: usize = self.streams.len();
        let args = ZArgs { transitions, two_states: n == 1, row };
        let ghost call = args.call();
        let ghost before = self.writers();
        let ghost after = spec_encode_row(call, before, row@);
        let mut i: usize = 0;
        proof {
            let full = PutZCall { transitions: transitions@, two_states: true };
            assert forall|sym: int, state: u8|
                0 <= sym < 64 && call.transitions[sym] != 0 implies #[trigger] tables::bits_out(
                state,
                call.transitions[sym],
            ) <= 8 by {
                assert(tables::bits_out(state, full.transitions[sym]) <= 8);
            }
        }
        while i < n
            invariant
                i <= n,
                n == before.len(),
                n == self.writers().len(),
                1 <= n <= 16,
                self.wf(),
                self.tables() == old(self).tables(),
                call == args.call(),
                args.wf(),
                args.row@ == row@,
                after == spec_encode_row(call, before, row@),
                forall|j: int| 0 <= j < i ==> #[trigger] self.writers()[j] == after[j],
                forall|j: int| i <= j < n ==> #[trigger] self.writers()[j] == before[j],
            decreases n - i,
        {
            let mut s: Stream = self.take(i);
            args.encode_row(&mut s, i, n);
            proof {
                assert(s.writer() == after[i as int]);
            }
            self.put(i, s);
            i = i + 1;
        }
        proof {
            assert(self.writers() =~= after);
        }
    }

    /// Encode hyper-latent symbols: one 63-entry CDF per channel, symbols in `[0, 63]`
    /// channel-major. Symbols with zero mass (and symbol 63) are escape-coded.
    pub fn encode_z(&mut self, cdfs: &[[u8; MAX_Z]], size_per_channel: usize, symbols: &[u8]) -> (r:
        Result<()>)
        requires
            old(self).wf(),
        ensures
            final(self).wf(),
            final(self).tables() == old(self).tables(),
            ({
                let total = cdfs@.len() * size_per_channel;
                let unchanged = final(self).writers() == old(self).writers();
                if total > usize::MAX {
                    r == Err::<(), Error>(Error::InvalidArgument("encode_z: size overflow"))
                        && unchanged
                } else if symbols@.len() != total {
                    r == Err::<(), Error>(
                        Error::InvalidArgument("encode_z: input length mismatch"),
                    ) && unchanged
                } else if !symbols_in_range(symbols@) {
                    r == Err::<(), Error>(Error::InvalidArgument("encode_z: symbol out of range"))
                        && unchanged
                } else if size_per_channel == 0 {
                    r == Ok::<(), Error>(()) && unchanged
                } else {
                    let m = spec_encode_z(
                        decoder::cdf_views(cdfs@),
                        size_per_channel as nat,
                        old(self).writers(),
                        symbols@,
                        cdfs@.len() as int,
                    );
                    &&& final(self).writers() == m.0
                    &&& r == if m.1 {
                        Ok::<(), Error>(())
                    } else {
                        Err::<(), Error>(Error::InvalidArgument("z CDF is not monotonic"))
                    }
                }
            }),
    {
        let channels: usize = cdfs.len();
        let total: usize = match channels.checked_mul(size_per_channel) {
            Some(t) => t,
            None => return Err(Error::InvalidArgument("encode_z: size overflow")),
        };
        if symbols.len() != total {
            return Err(Error::InvalidArgument("encode_z: input length mismatch"));
        }
        let mut k: usize = 0;
        while k < symbols.len()
            invariant
                k <= symbols@.len(),
                symbols@.len() == total,
                total == cdfs@.len() * size_per_channel,
                self.writers() == old(self).writers(),
                self.tables() == old(self).tables(),
                self.wf(),
                forall|i: int| 0 <= i < k ==> #[trigger] symbols@[i] <= 63,
            decreases symbols@.len() - k,
        {
            if symbols[k] as usize > MAX_Z {
                proof {
                    assert(!(symbols@[k as int] <= 63));
                }
                return Err(Error::InvalidArgument("encode_z: symbol out of range"));
            }
            k = k + 1;
        }
        if size_per_channel == 0 {
            return Ok(());
        }
        let size: usize = size_per_channel;
        let ghost views = decoder::cdf_views(cdfs@);
        let ghost before = self.writers();
        let mut ch: usize = channels;
        while ch > 0
            invariant
                ch <= channels,
                channels == cdfs@.len(),
                views == decoder::cdf_views(cdfs@),
                total == channels * size,
                symbols@.len() == total,
                size == size_per_channel,
                size > 0,
                symbols_in_range(symbols@),
                before == old(self).writers(),
                self.wf(),
                self.tables() == old(self).tables(),
                spec_encode_z(views, size as nat, before, symbols@, channels as int)
                    == spec_encode_z(views, size as nat, self.writers(), symbols@, ch as int),
            decreases ch,
        {
            ch = ch - 1;
            proof {
                assert(views[ch as int] == cdfs@[ch as int]@);
            }
            let transitions: Vec<u32> = z_transitions(&self.z_delta_bits, &cdfs[ch])?;
            proof {
                assert(ch * size + size <= channels * size && 0 <= ch * size) by (nonlinear_arith)
                    requires
                        ch + 1 <= channels,
                ;
            }
            let from: usize = ch * size;
            let row: &[u8] = vstd::slice::slice_subrange(symbols, from, from + size);
            proof {
                assert forall|i: int| 0 <= i < row@.len() implies #[trigger] row@[i] <= 63 by {
                    assert(symbols@[from + i] <= 63);
                }
            }
            self.encode_row(&transitions, row);
        }
        Ok(())
    }

    /// Terminate every thread and return their byte ranges in order.
    pub fn finish(self) -> (out: Vec<Vec<u8>>)
        requires
            self.wf(),
        ensures
            out@.len() == self.writers().len(),
            forall|i: int|
                0 <= i < out@.len() ==> stack::of_bytes((#[trigger] out@[i])@)
                    == self.writers()[i].sealed(out@.len() == 1),
    {
        let two_states: bool = self.streams.len() == 1;
        let mut e = self;
        let n: usize = e.streams.len();
        let ghost before = self.writers();
        let mut out: Vec<Vec<u8>> = Vec::new();
        while out.len() < n
            invariant
                out@.len() <= n,
                n == e.writers().len(),
                n == before.len(),
                two_states == (n == 1),
                e.wf(),
                forall|j: int| out@.len() <= j < n ==> #[trigger] e.writers()[j] == before[j],
                forall|i: int|
                    0 <= i < out@.len() ==> stack::of_bytes((#[trigger] out@[i])@)
                        == before[i].sealed(two_states),
            decreases n - out@.len(),
        {
            let i: usize = out.len();
            let s: Stream = e.take(i);
            out.push(s.close(two_states));
        }
        out
    }
}

} // verus!
