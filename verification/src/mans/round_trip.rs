//! Decoding gives back what was encoded.
//!
//! The encoder walks an order from the back and the decoder from the front, so that the decoder
//! takes back the encoder's steps one by one, the last one first.

use vstd::prelude::*;
use vstd::arithmetic::div_mod;
use vstd::arithmetic::power2;

use crate::container;
use crate::mans::decoder;
use crate::mans::decoder::{Reader, ResidualCall, ZCall};
use crate::mans::encoder;
use crate::mans::encoder::{PutZCall, Writer};
use crate::mans::order;
use crate::mans::order::Step;
use crate::mans::stack;
use crate::mans::tables;
use crate::mans::tables::PdfTables;

verus! {

/// A decoding thread stands where an encoding thread stood: behind `base`, which is at least as
/// long as what a window holds, lie the bits that the encoder had written, and the coder states
/// in use are the encoder's.
pub open spec fn agrees(r: Reader, base: Seq<bool>, w: Writer, two_states: bool) -> bool {
    &&& base.len() >= 56
    &&& 0 <= r.pos <= r.data.len()
    &&& r.data.take(r.pos) == base + w.bits
    &&& r.state1 == w.state1
    &&& two_states ==> r.state2 == w.state2
    &&& !r.failed
}

/// The next bits are those that were written last.
proof fn lemma_next(r: Reader, front: Seq<bool>, v: nat, n: nat)
    requires
        0 <= r.pos <= r.data.len(),
        r.data.take(r.pos) == front + stack::digits(v, n),
    ensures
        r.next(n) == v % power2::pow2(n),
        0 <= r.pos - n,
        r.data.take(r.pos - n) == front,
        r.pos - n == front.len(),
{
    let all = r.data.take(r.pos);
    assert(all.len() == front.len() + n);
    assert(r.data.subrange(r.pos - n, r.pos) =~= stack::digits(v, n)) by {
        assert(r.data.subrange(r.pos - n, r.pos) =~= all.subrange(r.pos - n, r.pos));
    }
    assert(r.data.take(r.pos - n) =~= front) by {
        assert(r.data.take(r.pos - n) =~= all.take(r.pos - n));
    }
    stack::lemma_number_of_digits(v, n);
}

/// A thread that has enough in front of it is left alone by a refill.
proof fn lemma_no_refill(r: Reader, base: Seq<bool>, w: Writer, two_states: bool)
    requires
        agrees(r, base, w, two_states),
    ensures
        r.refill() == r,
{
    assert(r.data.take(r.pos).len() == base.len() + w.bits.len());
}

/// Bits that complete a base with zeros in their place.
proof fn lemma_complete(base: u8, low: nat, n: nat)
    requires
        n <= 8,
        base as nat % power2::pow2(n) == 0,
        low < power2::pow2(n),
        base + low < 256,
    ensures
        base | (low as u8) == base + low,
{
    power2::lemma2_to64();
    let t = power2::pow2(n) as u16;
    let l = low as u8;
    assert(t == 1 || t == 2 || t == 4 || t == 8 || t == 16 || t == 32 || t == 64 || t == 128 || t
        == 256) by {
        assert(n == 0 || n == 1 || n == 2 || n == 3 || n == 4 || n == 5 || n == 6 || n == 7 || n
            == 8);
    }
    assert(base as u16 % t == 0);
    assert(base | l == base + l) by (bit_vector)
        requires
            t == 1 || t == 2 || t == 4 || t == 8 || t == 16 || t == 32 || t == 64 || t == 128 || t
                == 256,
            (base as u16) % t == 0,
            (l as u16) < t,
    ;
}

/// Decoding a state's step takes back encoding it.
proof fn lemma_state_step(
    r: Reader,
    base: Seq<bool>,
    w: Writer,
    two_states: bool,
    second: bool,
    e: u32,
    d: u32,
    next: u8,
)
    requires
        agrees(r, base, w.shift(second, e).with_state(second, next), two_states),
        tables::undoes(w.state(second), e, d),
        tables::bits_out(w.state(second), e) <= 8,
        second ==> two_states,
    ensures
        agrees(r.advance(second, d), base, w, two_states),
        r.state(second) == next,
{
    let n = tables::bits_out(w.state(second), e);
    let low = tables::low_out(w.state(second), e);
    power2::lemma_pow2_pos(n);
    div_mod::lemma_mod_bound(w.state(second) as int, power2::pow2(n) as int);
    let front = base + w.bits;
    assert(base + (w.bits + stack::digits(low, n)) =~= front + stack::digits(low, n));
    lemma_next(r, front, low, n);
    div_mod::lemma_small_mod(low, power2::pow2(n));
    lemma_complete(tables::base_in(d), low, n);
}

/// The value can be coded: its symbol has mass.
pub open spec fn value_codable(pdf: &PdfTables, d: int, value: i16) -> bool {
    pdf.pmf(d)[tables::column_of(encoder::symbol_for(value, pdf.bounds@[d]))] > 0
}

/// Every value that is coded at all can be.
pub open spec fn values_codable(pdf: &PdfTables, call: ResidualCall, values: Seq<i16>) -> bool {
    forall|i: int|
        0 <= i < values.len() && call.mask[i] ==> #[trigger] value_codable(
            pdf,
            call.dist(i),
            values[i],
        )
}

/// Decoding a symbol takes back encoding it.
proof fn lemma_inbound(
    pdf: &PdfTables,
    call: ResidualCall,
    r: Reader,
    base: Seq<bool>,
    w: Writer,
    out: Seq<i16>,
    i: int,
    value: i16,
)
    requires
        pdf.wf(),
        call.tables.of(pdf),
        call.wf(out.len()),
        0 <= i < out.len(),
        call.mask[i] ==> value_codable(pdf, call.dist(i), value),
        agrees(r, base, call.put_inbound(w, i, value), call.two_states),
    ensures
        ({
            let m = call.inbound((r, out), i);
            &&& agrees(m.0, base, w, call.two_states)
            &&& m.1 == if call.mask[i] {
                out.update(i, encoder::symbol_for(value, call.bound(i)) as i16)
            } else {
                out
            }
        }),
{
    reveal(ResidualCall::inbound);
    reveal(ResidualCall::put_inbound);
    if call.mask[i] {
        let d = call.dist(i);
        let second = call.second(i);
        let symbol = encoder::symbol_for(value, call.bound(i));
        assert(1 <= call.tables.bounds@[d] <= 128);
        let e = call.tables.encode@[d]@[symbol + 128];
        let slot = tables::slot_out(w.state(second), e);
        let next = call.tables.state_map@[d]@[slot as int];
        assert(tables::row_of(
            pdf.pmf(d),
            call.tables.decode@[d]@,
            call.tables.encode@[d]@,
            call.tables.state_map@[d]@,
        ));
        assert(tables::is_pmf(pdf.pmf(d)));
        tables::law_tables_invert(
            pdf.pmf(d),
            call.tables.decode@[d]@,
            call.tables.encode@[d]@,
            call.tables.state_map@[d]@,
            w.state(second),
            symbol,
        );
        let entry = call.tables.decode@[d]@[next as int];
        lemma_state_step(r, base, w, call.two_states, second, e, entry, next);
        assert(decoder::signed16(entry as int % 65536) == symbol);
    }
}

/// Reading an escape code takes back writing it.
proof fn lemma_outbound(
    call: ResidualCall,
    r: Reader,
    base: Seq<bool>,
    w: Writer,
    out: Seq<i16>,
    i: int,
    value: i16,
)
    requires
        call.wf(out.len()),
        0 <= i < out.len(),
        agrees(r, base, call.put_outbound(w, i, value), call.two_states),
        call.mask[i] ==> out[i] == encoder::symbol_for(value, call.bound(i)),
    ensures
        ({
            let m = call.outbound((r, out), i);
            &&& agrees(m.0, base, w, call.two_states)
            &&& m.1 == if call.mask[i] {
                out.update(i, value)
            } else {
                out
            }
        }),
{
    reveal(ResidualCall::outbound);
    reveal(ResidualCall::put_outbound);
    if call.mask[i] {
        let bound = call.bound(i);
        assert(1 <= call.tables.bounds@[call.dist(i)] <= 128);
        if -(bound as int) < value < bound {
            assert(out.update(i, value) =~= out);
        } else {
            let code = encoder::escape_code(value, bound) as nat;
            let front = base + w.bits;
            power2::lemma2_to64();
            let (v, n) = if code >= 8 {
                (code, 16nat)
            } else {
                (code + 8, 3nat)
            };
            assert(base + (w.bits + stack::digits(v, n + 1)) =~= front + stack::digits(v, n + 1));
            stack::lemma_digits_split(v, n, 1);
            let flag = v / power2::pow2(n);
            assert(front + (stack::digits(v, n) + stack::digits(flag, 1)) =~= (front
                + stack::digits(v, n)) + stack::digits(flag, 1));
            lemma_next(r, front + stack::digits(v, n), flag, 1);
            lemma_next(r.skip(1), front, v, n);
            assert(r.next(1) == if code >= 8 {
                0nat
            } else {
                1
            });
            assert(v % power2::pow2(n) == code);
            lemma_no_refill(r.skip(1).skip(n), base, w, call.two_states);
            assert(decoder::escape_value(code, bound) == value);
        }
    }
}

/// Whether a step codes a symbol.
pub open spec fn touches(step: Step, i: int) -> bool {
    match step {
        Step::Group { at, by } => i == at || i == at + by || i == at + 2 * by || i == at + 3 * by,
        Step::One(j) => i == j,
        Step::Refill => false,
    }
}

/// A step's symbols lie within a call of `len` symbols.
pub open spec fn within(step: Step, len: nat) -> bool {
    match step {
        Step::Group { at, by } => 0 <= at && by >= 1 && at + 3 * by < len,
        Step::One(j) => 0 <= j < len,
        Step::Refill => true,
    }
}

/// Output with the values in place that a step codes.
pub open spec fn settled(call: ResidualCall, values: Seq<i16>, out: Seq<i16>, step: Step) -> Seq<i16> {
    Seq::new(
        out.len(),
        |i: int|
            if touches(step, i) && call.mask[i] {
                values[i]
            } else {
                out[i]
            },
    )
}

/// Output with one value in place.
spec fn placed(call: ResidualCall, out: Seq<i16>, i: int, value: i16) -> Seq<i16> {
    if call.mask[i] {
        out.update(i, value)
    } else {
        out
    }
}

/// Decoding a step takes back encoding it.
proof fn lemma_step_back(
    pdf: &PdfTables,
    call: ResidualCall,
    r: Reader,
    base: Seq<bool>,
    w: Writer,
    values: Seq<i16>,
    out: Seq<i16>,
    step: Step,
)
    requires
        pdf.wf(),
        call.tables.of(pdf),
        call.wf(out.len()),
        values.len() == out.len(),
        within(step, out.len()),
        values_codable(pdf, call, values),
        agrees(r, base, call.put_step(w, values, step), call.two_states),
    ensures
        ({
            let m = call.step((r, out), step);
            &&& agrees(m.0, base, w, call.two_states)
            &&& m.1 == settled(call, values, out, step)
        }),
{
    reveal(ResidualCall::step);
    reveal(ResidualCall::put_step);
    match step {
        Step::Group { at, by } => {
            let (i0, i1, i2, i3) = (at, at + by, at + 2 * by, at + 3 * by);
            let sym = |i: int| encoder::symbol_for(values[i], call.bound(i)) as i16;
            let wa = call.put_outbound(w, i3, values[i3]);
            let wb = call.put_outbound(wa, i2, values[i2]);
            let wc = call.put_outbound(wb, i1, values[i1]);
            let wd = call.put_outbound(wc, i0, values[i0]);
            let we = call.put_inbound(wd, i3, values[i3]);
            let wf = call.put_inbound(we, i2, values[i2]);
            let wg = call.put_inbound(wf, i1, values[i1]);
            let m1 = call.inbound((r, out), i0);
            lemma_inbound(pdf, call, r, base, wg, out, i0, values[i0]);
            assert(m1.1 == placed(call, out, i0, sym(i0)));
            let m2 = call.inbound(m1, i1);
            lemma_inbound(pdf, call, m1.0, base, wf, m1.1, i1, values[i1]);
            assert(m2.1 == placed(call, m1.1, i1, sym(i1)));
            let m3 = call.inbound(m2, i2);
            lemma_inbound(pdf, call, m2.0, base, we, m2.1, i2, values[i2]);
            assert(m3.1 == placed(call, m2.1, i2, sym(i2)));
            let m4 = call.inbound(m3, i3);
            lemma_inbound(pdf, call, m3.0, base, wd, m3.1, i3, values[i3]);
            assert(m4.1 == placed(call, m3.1, i3, sym(i3)));
            lemma_no_refill(m4.0, base, wd, call.two_states);
            let m5 = call.outbound(m4, i0);
            lemma_outbound(call, m4.0, base, wc, m4.1, i0, values[i0]);
            assert(m5.1 == placed(call, m4.1, i0, values[i0]));
            let m6 = call.outbound(m5, i1);
            lemma_outbound(call, m5.0, base, wb, m5.1, i1, values[i1]);
            assert(m6.1 == placed(call, m5.1, i1, values[i1]));
            let m7 = call.outbound(m6, i2);
            lemma_outbound(call, m6.0, base, wa, m6.1, i2, values[i2]);
            assert(m7.1 == placed(call, m6.1, i2, values[i2]));
            let m8 = call.outbound(m7, i3);
            lemma_outbound(call, m7.0, base, w, m7.1, i3, values[i3]);
            assert(m8.1 == placed(call, m7.1, i3, values[i3]));
            assert(m8.1 =~= settled(call, values, out, step));
        },
        Step::One(i) => {
            let wa = call.put_outbound(w, i, values[i]);
            let m1 = call.inbound((r, out), i);
            lemma_inbound(pdf, call, r, base, wa, out, i, values[i]);
            let m2 = call.outbound(m1, i);
            lemma_outbound(call, m1.0, base, w, m1.1, i, values[i]);
            assert(m2.1 =~= settled(call, values, out, step));
        },
        Step::Refill => {
            lemma_no_refill(r, base, w, call.two_states);
            assert(out =~= settled(call, values, out, step));
        },
    }
}

/// The step at the front of an order is encoded last.
proof fn lemma_put_front(call: ResidualCall, w: Writer, values: Seq<i16>, steps: Seq<Step>)
    requires
        steps.len() > 0,
    ensures
        call.put_run(w, values, steps) == call.put_step(
            call.put_run(w, values, steps.skip(1)),
            values,
            steps[0],
        ),
    decreases steps.len(),
{
    reveal_with_fuel(ResidualCall::put_run, 2);
    let w1 = call.put_step(w, values, steps.last());
    if steps.len() == 1 {
        assert(steps.drop_last() =~= Seq::empty());
        assert(steps.skip(1) =~= Seq::empty());
    } else {
        lemma_put_front(call, w1, values, steps.drop_last());
        assert(steps.drop_last().skip(1) =~= steps.skip(1).drop_last());
        assert(steps.skip(1).last() == steps.last());
    }
}

/// Some step of an order codes a symbol.
pub open spec fn covered(steps: Seq<Step>, i: int) -> bool {
    exists|k: int| 0 <= k < steps.len() && #[trigger] touches(steps[k], i)
}

/// Output with the values in place that an order codes.
pub open spec fn restored(
    call: ResidualCall,
    values: Seq<i16>,
    out: Seq<i16>,
    steps: Seq<Step>,
) -> Seq<i16> {
    Seq::new(
        out.len(),
        |i: int|
            if covered(steps, i) && call.mask[i] {
                values[i]
            } else {
                out[i]
            },
    )
}

/// Decoding an order takes back encoding it.
proof fn lemma_run_back(
    pdf: &PdfTables,
    call: ResidualCall,
    r: Reader,
    base: Seq<bool>,
    w: Writer,
    values: Seq<i16>,
    out: Seq<i16>,
    steps: Seq<Step>,
)
    requires
        pdf.wf(),
        call.tables.of(pdf),
        call.wf(out.len()),
        values.len() == out.len(),
        forall|k: int| 0 <= k < steps.len() ==> within(#[trigger] steps[k], out.len()),
        values_codable(pdf, call, values),
        agrees(r, base, call.put_run(w, values, steps), call.two_states),
    ensures
        ({
            let m = call.run((r, out), steps);
            &&& agrees(m.0, base, w, call.two_states)
            &&& m.1 == restored(call, values, out, steps)
        }),
    decreases steps.len(),
{
    if steps.len() == 0 {
        assert(restored(call, values, out, steps) =~= out);
    } else {
        let rest = steps.skip(1);
        let w1 = call.put_run(w, values, rest);
        lemma_put_front(call, w, values, steps);
        assert(within(steps[0], out.len()));
        lemma_step_back(pdf, call, r, base, w1, values, out, steps[0]);
        let m = call.step((r, out), steps[0]);
        assert forall|k: int| 0 <= k < rest.len() implies within(
            #[trigger] rest[k],
            out.len(),
        ) by {
            assert(rest[k] == steps[k + 1]);
        }
        lemma_run_back(pdf, call, m.0, base, w, values, m.1, rest);
        let a = restored(call, values, m.1, rest);
        let b = restored(call, values, out, steps);
        assert forall|i: int| 0 <= i < out.len() implies a[i] == b[i] by {
            if covered(rest, i) {
                let k = choose|k: int| 0 <= k < rest.len() && #[trigger] touches(rest[k], i);
                assert(touches(steps[k + 1], i));
            }
            if touches(steps[0], i) {
                assert(covered(steps, i));
            }
            if covered(steps, i) && !touches(steps[0], i) {
                let k = choose|k: int| 0 <= k < steps.len() && #[trigger] touches(steps[k], i);
                assert(rest[k - 1] == steps[k]);
                assert(touches(rest[k - 1], i));
            }
        }
        assert(a =~= b);
    }
}

/// A number and its quarter.
proof fn lemma_quarters(len: int)
    ensures
        len == len / 4 * 4 + len % 4,
        0 <= len % 4 < 4,
{
}

/// The steps of a thread's residual order lie within the call.
proof fn lemma_residual_within(len: nat, first: int, n: int, k: int)
    requires
        1 <= n,
        0 <= first < n,
        0 <= k < order::residual_order(len as int, first, n).len(),
    ensures
        within(order::residual_order(len as int, first, n)[k], len),
{
    let steps = order::residual_order(len as int, first, n);
    let count = len as int / (4 * n);
    order::lemma_groups_end(len as int, n, first);
    if n == 1 {
        assert(4 * n == 4);
        assert(count == len as int / 4);
    }
    if k < count {
        order::lemma_group_within(len as int, n, first, k);
        assert(steps[k] == Step::Group { at: first + 4 * n * k, by: n });
    } else if n == 1 {
        let tail = order::residual_tail(len as int);
        let left = len as int % 4;
        let at = len as int / 4 * 4;
        assert(first == 0);
        assert(steps == order::groups(count, 0, 1) + tail);
        lemma_quarters(len as int);
        assert(len == at + left);
        assert(left == 0 || left == 1 || left == 2 || left == 3);
        let j = k - count;
        assert(j == 0 || j == 1 || j == 2 || j == 3 || j == 4);
        assert(steps[k] == tail[k - count]);
    } else {
        let done = count * (4 * n) + first;
        let ones = order::count_from(len as int, done, n);
        let j = k - count;
        let tail = order::refilled_ones(ones, done, n);
        assert(steps[k] == tail[j]);
        if j % 2 == 0 {
            order::lemma_count_from(len as int, done, n, j / 2);
            assert(n * (j / 2) >= 0) by (nonlinear_arith)
                requires
                    n >= 1,
                    j >= 0,
            ;
        }
    }
}

/// A number that lies before the end of the groups lies in one of them.
proof fn lemma_in_group(len: int, n: int, i: int)
    requires
        1 <= n,
        0 <= i < len / (4 * n) * (4 * n),
    ensures
        ({
            let g = i / (4 * n);
            let at = i % n + 4 * n * g;
            &&& 0 <= g < len / (4 * n)
            &&& i == at || i == at + n || i == at + 2 * n || i == at + 3 * n
        }),
{
    let g = i / (4 * n);
    let rem = i % (4 * n);
    div_mod::lemma_fundamental_div_mod(i, 4 * n);
    div_mod::lemma_mod_bound(i, 4 * n);
    div_mod::lemma_div_pos_is_pos(i, 4 * n);
    assert(g < len / (4 * n)) by (nonlinear_arith)
        requires
            i == 4 * n * g + rem,
            rem >= 0,
            i < len / (4 * n) * (4 * n),
            n >= 1,
    ;
    let q = rem / n;
    let first = rem % n;
    div_mod::lemma_fundamental_div_mod(rem, n);
    div_mod::lemma_mod_bound(rem, n);
    div_mod::lemma_div_pos_is_pos(rem, n);
    assert(q < 4) by (nonlinear_arith)
        requires
            rem == n * q + first,
            first >= 0,
            rem < 4 * n,
            n >= 1,
    ;
    assert(i == (4 * g + q) * n + first) by (nonlinear_arith)
        requires
            i == 4 * n * g + rem,
            rem == n * q + first,
    ;
    div_mod::lemma_fundamental_div_mod_converse(i, n, 4 * g + q, first);
    assert(n * 0 == 0 && n * 1 == n && n * 2 == 2 * n && n * 3 == 3 * n);
}

/// A number behind the groups is one of those that are left over.
proof fn lemma_in_tail(len: int, n: int, i: int)
    requires
        1 <= n,
        0 <= len,
        len / (4 * n) * (4 * n) <= i < len,
    ensures
        ({
            let done = len / (4 * n) * (4 * n) + i % n;
            let j = (i - done) / n;
            &&& 0 <= j < order::count_from(len, done, n)
            &&& i == done + n * j
            &&& 0 <= done < len
        }),
{
    let base = len / (4 * n) * (4 * n);
    let first = i % n;
    order::lemma_groups_end(len, n, 0);
    let q = i / n;
    div_mod::lemma_fundamental_div_mod(i, n);
    div_mod::lemma_mod_bound(i, n);
    let c = 4 * (len / (4 * n));
    assert(base == c * n) by (nonlinear_arith)
        requires
            base == len / (4 * n) * (4 * n),
            c == 4 * (len / (4 * n)),
    ;
    let j = q - c;
    assert(i - (base + first) == j * n) by (nonlinear_arith)
        requires
            i == n * q + first,
            base == c * n,
            j == q - c,
    ;
    assert(j >= 0) by (nonlinear_arith)
        requires
            i == n * q + first,
            base == c * n,
            j == q - c,
            i >= base,
            first < n,
            n >= 1,
    ;
    div_mod::lemma_fundamental_div_mod_converse(i - (base + first), n, j, 0);
    assert(n * j == j * n) by (nonlinear_arith);
    assert(n * j >= 0) by (nonlinear_arith)
        requires
            j >= 0,
            n >= 1,
    ;
    order::lemma_count_from(len, base + first, n, j);
}

/// Every residual symbol is coded by some thread: its number modulo the number of threads.
proof fn lemma_residual_covered(len: nat, n: int, i: int)
    requires
        1 <= n,
        0 <= i < len,
    ensures
        0 <= i % n < n,
        covered(order::residual_order(len as int, i % n, n), i),
{
    let first = i % n;
    let steps = order::residual_order(len as int, first, n);
    let count = len as int / (4 * n);
    div_mod::lemma_mod_bound(i, n);
    order::lemma_groups_end(len as int, n, first);
    if n == 1 {
        assert(4 * n == 4);
        assert(count == len as int / 4);
    }
    if i < count * (4 * n) {
        lemma_in_group(len as int, n, i);
        let g = i / (4 * n);
        assert(steps[g] == Step::Group { at: first + 4 * n * g, by: n });
        assert(touches(steps[g], i));
    } else if n == 1 {
        let tail = order::residual_tail(len as int);
        let at = len as int / 4 * 4;
        let left = len as int % 4;
        assert(steps == order::groups(count, 0, 1) + tail);
        lemma_quarters(len as int);
        assert(len == at + left && at <= i);
        if i == at + 2 {
            assert(left == 3 && tail.len() == 5);
            assert(steps[count + 3] == tail[3]);
            assert(touches(steps[count + 3], i));
        } else {
            assert(steps[count + (i - at)] == tail[i - at]);
            assert(touches(steps[count + (i - at)], i));
        }
    } else {
        let done = count * (4 * n) + first;
        let ones = order::count_from(len as int, done, n);
        let j = (i - done) / n;
        lemma_in_tail(len as int, n, i);
        let tail = order::refilled_ones(ones, done, n);
        assert(steps[count + 2 * j] == tail[2 * j]);
        assert(2 * j / 2 == j);
        assert(touches(steps[count + 2 * j], i));
    }
}

/// Some thread from the `t`-th on codes a residual symbol.
spec fn coded_from(len: nat, n: int, t: int, i: int) -> bool {
    exists|u: int| t <= u < n && #[trigger] covered(order::residual_order(len as int, u, n), i)
}

/// Decoding the threads from the `t`-th on takes back encoding them.
proof fn lemma_threads_back(
    pdf: &PdfTables,
    call: ResidualCall,
    readers: Seq<Reader>,
    bases: Seq<Seq<bool>>,
    writers: Seq<Writer>,
    values: Seq<i16>,
    out: Seq<i16>,
    t: int,
)
    requires
        pdf.wf(),
        call.tables.of(pdf),
        call.wf(out.len()),
        values.len() == out.len(),
        values_codable(pdf, call, values),
        writers.len() == readers.len(),
        bases.len() == readers.len(),
        0 <= t <= readers.len(),
        forall|u: int|
            0 <= u < t ==> agrees(#[trigger] readers[u], bases[u], writers[u], call.two_states),
        forall|u: int|
            t <= u < readers.len() ==> agrees(
                #[trigger] readers[u],
                bases[u],
                encoder::spec_encode_residual(call, writers, values)[u],
                call.two_states,
            ),
    ensures
        ({
            let m = decoder::spec_decode_residual(call, readers, out, t);
            &&& m.0.len() == readers.len()
            &&& m.1.len() == out.len()
            &&& forall|u: int|
                0 <= u < readers.len() ==> agrees(
                    #[trigger] m.0[u],
                    bases[u],
                    writers[u],
                    call.two_states,
                )
            &&& forall|i: int|
                0 <= i < out.len() ==> #[trigger] m.1[i] == if call.mask[i] && coded_from(
                    out.len(),
                    readers.len() as int,
                    t,
                    i,
                ) {
                    values[i]
                } else {
                    out[i]
                }
        }),
    decreases readers.len() - t,
{
    let n = readers.len() as int;
    if t < n {
        let steps = order::residual_order(out.len() as int, t, n);
        assert forall|k: int| 0 <= k < steps.len() implies within(
            #[trigger] steps[k],
            out.len(),
        ) by {
            lemma_residual_within(out.len(), t, n, k);
        }
        assert(agrees(
            readers[t],
            bases[t],
            encoder::spec_encode_residual(call, writers, values)[t],
            call.two_states,
        ));
        lemma_run_back(pdf, call, readers[t], bases[t], writers[t], values, out, steps);
        let m = call.run((readers[t], out), steps);
        lemma_threads_back(
            pdf,
            call,
            readers.update(t, m.0),
            bases,
            writers,
            values,
            m.1,
            t + 1,
        );
        assert forall|i: int| 0 <= i < out.len() implies coded_from(out.len(), n, t, i) == (covered(
            steps,
            i,
        ) || #[trigger] coded_from(out.len(), n, t + 1, i)) by {
            if coded_from(out.len(), n, t + 1, i) {
                let u = choose|u: int|
                    t + 1 <= u < n && #[trigger] covered(
                        order::residual_order(out.len() as int, u, n),
                        i,
                    );
                assert(covered(order::residual_order(out.len() as int, u, n), i));
            }
        }
        assert forall|i: int| 0 <= i < out.len() implies #[trigger] decoder::spec_decode_residual(
            call,
            readers,
            out,
            t,
        ).1[i] == if call.mask[i] && coded_from(out.len(), n, t, i) {
            values[i]
        } else {
            out[i]
        } by {
            assert(coded_from(out.len(), n, t, i) == (covered(steps, i) || coded_from(
                out.len(),
                n,
                t + 1,
                i,
            )));
        }
    } else {
        assert forall|i: int| 0 <= i < out.len() implies !coded_from(out.len(), n, t, i) by {}
    }
}

/// Decoding residual symbols gives back what was encoded: where the decoding threads stand where
/// the encoding threads stood after the call, every coded value comes out in its place, whatever
/// was not coded is left as it was, and the decoding threads end where the encoding threads stood
/// before the call.
pub proof fn law_residual_round_trip(
    pdf: &PdfTables,
    call: ResidualCall,
    readers: Seq<Reader>,
    bases: Seq<Seq<bool>>,
    writers: Seq<Writer>,
    values: Seq<i16>,
    out: Seq<i16>,
)
    requires
        pdf.wf(),
        call.tables.of(pdf),
        call.wf(out.len()),
        values.len() == out.len(),
        values_codable(pdf, call, values),
        readers.len() >= 1,
        writers.len() == readers.len(),
        bases.len() == readers.len(),
        forall|u: int|
            0 <= u < readers.len() ==> agrees(
                #[trigger] readers[u],
                bases[u],
                encoder::spec_encode_residual(call, writers, values)[u],
                call.two_states,
            ),
    ensures
        ({
            let m = decoder::spec_decode_residual(call, readers, out, 0);
            &&& m.0.len() == readers.len()
            &&& forall|u: int|
                0 <= u < readers.len() ==> agrees(
                    #[trigger] m.0[u],
                    bases[u],
                    writers[u],
                    call.two_states,
                )
            &&& !decoder::any_failed(m.0)
            &&& m.1 == Seq::new(
                out.len(),
                |i: int|
                    if call.mask[i] {
                        values[i]
                    } else {
                        out[i]
                    },
            )
        }),
{
    lemma_threads_back(pdf, call, readers, bases, writers, values, out, 0);
    let m = decoder::spec_decode_residual(call, readers, out, 0);
    let want = Seq::new(
        out.len(),
        |i: int|
            if call.mask[i] {
                values[i]
            } else {
                out[i]
            },
    );
    let n = readers.len() as int;
    assert forall|i: int| 0 <= i < out.len() implies #[trigger] m.1[i] == want[i] by {
        lemma_residual_covered(out.len(), n, i);
        assert(coded_from(out.len(), n, 0, i));
    }
    assert(m.1 =~= want);
    assert forall|u: int| 0 <= u < m.0.len() implies !(#[trigger] m.0[u]).failed by {
        assert(agrees(m.0[u], bases[u], writers[u], call.two_states));
    }
}

/// What encodes a row with a CDF.
pub open spec fn put_call(cdf: Seq<u8>, two_states: bool) -> PutZCall {
    PutZCall { transitions: tables::z_encode_table(cdf), two_states }
}

/// What decodes a row with a CDF.
pub open spec fn get_call(cdf: Seq<u8>, two_states: bool) -> ZCall {
    ZCall { transitions: tables::z_decode_table(cdf), two_states }
}

/// The symbol that the coder sees in place of a value.
spec fn z_symbol(cdf: Seq<u8>, value: u8) -> u8 {
    if put_call(cdf, true).escapes(value) {
        63
    } else {
        value
    }
}

/// The decoder entry of the state that a symbol leads to takes the symbol back.
proof fn lemma_z_entry(cdf: Seq<u8>, state: u8, value: u8)
    requires
        cdf.len() == 63,
        tables::z_monotone(cdf),
        value <= 63,
    ensures
        ({
            let sym = z_symbol(cdf, value);
            let e = tables::z_encode_table(cdf)[sym as int];
            let slot = tables::slot_out(state, e);
            let d = tables::z_decode_table(cdf)[slot as int];
            &&& slot < 256
            &&& tables::undoes(state, e, d)
            &&& tables::bits_out(state, e) <= 8
            &&& (d % 256) as u8 == sym
        }),
{
    let sym = z_symbol(cdf, value) as int;
    assert(tables::z_mass(cdf, sym) > 0) by {
        tables::lemma_z_encode_nonzero(cdf, sym);
    }
    tables::law_z_tables_invert(cdf, state, sym);
    let e = tables::z_encode_table(cdf)[sym];
    let d = tables::z_decode_table(cdf)[tables::slot_out(state, e) as int] as int;
    assert(d % 256 == (d % 65536) % 256);
}

/// Decoding a hyper-latent symbol takes back encoding it.
proof fn lemma_z_inbound(
    cdf: Seq<u8>,
    two: bool,
    r: Reader,
    base: Seq<bool>,
    w: Writer,
    row: Seq<u8>,
    i: int,
    value: u8,
)
    requires
        cdf.len() == 63,
        tables::z_monotone(cdf),
        value <= 63,
        0 <= i < row.len(),
        agrees(r, base, put_call(cdf, two).put_inbound(w, i, value), two),
    ensures
        ({
            let m = get_call(cdf, two).inbound((r, row), i);
            &&& agrees(m.0, base, w, two)
            &&& m.1 == row.update(i, z_symbol(cdf, value))
        }),
{
    reveal(ZCall::inbound);
    reveal(PutZCall::put_inbound);
    let second = get_call(cdf, two).second(i);
    let sym = z_symbol(cdf, value) as int;
    let e = tables::z_encode_table(cdf)[sym];
    let slot = tables::slot_out(w.state(second), e);
    let d = tables::z_decode_table(cdf)[slot as int];
    lemma_z_entry(cdf, w.state(second), value);
    lemma_state_step(r, base, w, two, second, e, d, slot as u8);
}

/// Reading an escape-coded hyper-latent symbol takes back writing it.
proof fn lemma_z_outbound(
    cdf: Seq<u8>,
    two: bool,
    r: Reader,
    base: Seq<bool>,
    w: Writer,
    row: Seq<u8>,
    i: int,
    value: u8,
)
    requires
        value <= 63,
        0 <= i < row.len(),
        row[i] == z_symbol(cdf, value),
        agrees(r, base, put_call(cdf, two).put_outbound(w, value), two),
    ensures
        ({
            let m = get_call(cdf, two).outbound((r, row), i);
            &&& agrees(m.0, base, w, two)
            &&& m.1 == row.update(i, value)
        }),
{
    reveal(ZCall::outbound);
    reveal(PutZCall::put_outbound);
    if put_call(cdf, two).escapes(value) {
        power2::lemma2_to64();
        assert(base + (w.bits + stack::digits(value as nat, 6)) =~= (base + w.bits) + stack::digits(
            value as nat,
            6,
        ));
        lemma_next(r, base + w.bits, value as nat, 6);
    } else {
        assert(row.update(i, value) =~= row);
    }
}

/// A row with the symbols in place that a step codes.
spec fn z_settled(symbols: Seq<u8>, row: Seq<u8>, step: Step) -> Seq<u8> {
    Seq::new(
        row.len(),
        |i: int|
            if touches(step, i) {
                symbols[i]
            } else {
                row[i]
            },
    )
}

/// Decoding a step of a row takes back encoding it.
proof fn lemma_z_step_back(
    cdf: Seq<u8>,
    two: bool,
    r: Reader,
    base: Seq<bool>,
    w: Writer,
    symbols: Seq<u8>,
    row: Seq<u8>,
    step: Step,
)
    requires
        cdf.len() == 63,
        tables::z_monotone(cdf),
        symbols.len() == row.len(),
        encoder::symbols_in_range(symbols),
        within(step, row.len()),
        agrees(r, base, put_call(cdf, two).put_step(w, symbols, step), two),
    ensures
        ({
            let m = get_call(cdf, two).step((r, row), step);
            &&& agrees(m.0, base, w, two)
            &&& m.1 == z_settled(symbols, row, step)
        }),
{
    reveal(ZCall::step);
    reveal(PutZCall::put_step);
    let put = put_call(cdf, two);
    let get = get_call(cdf, two);
    match step {
        Step::Group { at, by } => {
            let (i0, i1, i2, i3) = (at, at + by, at + 2 * by, at + 3 * by);
            let (s0, s1, s2, s3) = (symbols[i0], symbols[i1], symbols[i2], symbols[i3]);
            let wa = put.put_outbound(w, s3);
            let wb = put.put_outbound(wa, s2);
            let wc = put.put_outbound(wb, s1);
            let wd = put.put_outbound(wc, s0);
            let we = put.put_inbound(wd, i3, s3);
            let wf = put.put_inbound(we, i2, s2);
            let wg = put.put_inbound(wf, i1, s1);
            let m1 = get.inbound((r, row), i0);
            lemma_z_inbound(cdf, two, r, base, wg, row, i0, s0);
            let m2 = get.inbound(m1, i1);
            lemma_z_inbound(cdf, two, m1.0, base, wf, m1.1, i1, s1);
            let m3 = get.inbound(m2, i2);
            lemma_z_inbound(cdf, two, m2.0, base, we, m2.1, i2, s2);
            let m4 = get.inbound(m3, i3);
            lemma_z_inbound(cdf, two, m3.0, base, wd, m3.1, i3, s3);
            let m5 = get.outbound(m4, i0);
            lemma_z_outbound(cdf, two, m4.0, base, wc, m4.1, i0, s0);
            let m6 = get.outbound(m5, i1);
            lemma_z_outbound(cdf, two, m5.0, base, wb, m5.1, i1, s1);
            let m7 = get.outbound(m6, i2);
            lemma_z_outbound(cdf, two, m6.0, base, wa, m6.1, i2, s2);
            let m8 = get.outbound(m7, i3);
            lemma_z_outbound(cdf, two, m7.0, base, w, m7.1, i3, s3);
            assert(m8.1 =~= z_settled(symbols, row, step));
        },
        Step::One(i) => {
            let wa = put.put_outbound(w, symbols[i]);
            let m1 = get.inbound((r, row), i);
            lemma_z_inbound(cdf, two, r, base, wa, row, i, symbols[i]);
            let m2 = get.outbound(m1, i);
            lemma_z_outbound(cdf, two, m1.0, base, w, m1.1, i, symbols[i]);
            assert(m2.1 =~= z_settled(symbols, row, step));
        },
        Step::Refill => {
            lemma_no_refill(r, base, w, two);
            assert(row =~= z_settled(symbols, row, step));
        },
    }
}

/// The step at the front of a row's order is encoded last.
proof fn lemma_z_put_front(put: PutZCall, w: Writer, symbols: Seq<u8>, steps: Seq<Step>)
    requires
        steps.len() > 0,
    ensures
        put.put_run(w, symbols, steps) == put.put_step(
            put.put_run(w, symbols, steps.skip(1)),
            symbols,
            steps[0],
        ),
    decreases steps.len(),
{
    reveal_with_fuel(PutZCall::put_run, 2);
    let w1 = put.put_step(w, symbols, steps.last());
    if steps.len() == 1 {
        assert(steps.drop_last() =~= Seq::empty());
        assert(steps.skip(1) =~= Seq::empty());
    } else {
        lemma_z_put_front(put, w1, symbols, steps.drop_last());
        assert(steps.drop_last().skip(1) =~= steps.skip(1).drop_last());
        assert(steps.skip(1).last() == steps.last());
    }
}

/// A row with the symbols in place that an order codes.
spec fn z_restored(symbols: Seq<u8>, row: Seq<u8>, steps: Seq<Step>) -> Seq<u8> {
    Seq::new(
        row.len(),
        |i: int|
            if covered(steps, i) {
                symbols[i]
            } else {
                row[i]
            },
    )
}

/// Decoding an order of a row takes back encoding it.
proof fn lemma_z_run_back(
    cdf: Seq<u8>,
    two: bool,
    r: Reader,
    base: Seq<bool>,
    w: Writer,
    symbols: Seq<u8>,
    row: Seq<u8>,
    steps: Seq<Step>,
)
    requires
        cdf.len() == 63,
        tables::z_monotone(cdf),
        symbols.len() == row.len(),
        encoder::symbols_in_range(symbols),
        forall|k: int| 0 <= k < steps.len() ==> within(#[trigger] steps[k], row.len()),
        agrees(r, base, put_call(cdf, two).put_run(w, symbols, steps), two),
    ensures
        ({
            let m = get_call(cdf, two).run((r, row), steps);
            &&& agrees(m.0, base, w, two)
            &&& m.1 == z_restored(symbols, row, steps)
        }),
    decreases steps.len(),
{
    if steps.len() == 0 {
        assert(z_restored(symbols, row, steps) =~= row);
    } else {
        let rest = steps.skip(1);
        let w1 = put_call(cdf, two).put_run(w, symbols, rest);
        lemma_z_put_front(put_call(cdf, two), w, symbols, steps);
        assert(within(steps[0], row.len()));
        lemma_z_step_back(cdf, two, r, base, w1, symbols, row, steps[0]);
        let m = get_call(cdf, two).step((r, row), steps[0]);
        assert forall|k: int| 0 <= k < rest.len() implies within(
            #[trigger] rest[k],
            row.len(),
        ) by {
            assert(rest[k] == steps[k + 1]);
        }
        lemma_z_run_back(cdf, two, m.0, base, w, symbols, m.1, rest);
        let a = z_restored(symbols, m.1, rest);
        let b = z_restored(symbols, row, steps);
        assert forall|i: int| 0 <= i < row.len() implies a[i] == b[i] by {
            if covered(rest, i) {
                let k = choose|k: int| 0 <= k < rest.len() && #[trigger] touches(rest[k], i);
                assert(touches(steps[k + 1], i));
            }
            if touches(steps[0], i) {
                assert(covered(steps, i));
            }
            if covered(steps, i) && !touches(steps[0], i) {
                let k = choose|k: int| 0 <= k < steps.len() && #[trigger] touches(steps[k], i);
                assert(rest[k - 1] == steps[k]);
                assert(touches(rest[k - 1], i));
            }
        }
        assert(a =~= b);
    }
}

/// The steps of a thread's order of a row lie within the row.
pub proof fn lemma_z_within(len: nat, first: int, n: int, k: int)
    requires
        1 <= n,
        0 <= first < n,
        0 <= k < order::z_order(len as int, first, n).len(),
    ensures
        within(order::z_order(len as int, first, n)[k], len),
{
    let steps = order::z_order(len as int, first, n);
    let count = len as int / (4 * n);
    let done = count * (4 * n) + first;
    let ones = order::count_from(len as int, done, n);
    order::lemma_groups_end(len as int, n, first);
    div_mod::lemma_div_pos_is_pos(len as int, 4 * n);
    if k < 2 * count {
        assert(steps[k] == order::refilled_groups(count, first, n)[k]);
        if k % 2 == 0 {
            order::lemma_group_within(len as int, n, first, k / 2);
        }
    } else if k < 2 * count + ones {
        let j = k - 2 * count;
        assert(steps[k] == order::ones(ones, done, n)[j]);
        order::lemma_count_from(len as int, done, n, j);
        assert(n * j >= 0) by (nonlinear_arith)
            requires
                n >= 1,
                j >= 0,
        ;
    } else {
        if done < len {
            order::lemma_count_from(len as int, done, n, 0);
        }
        assert(steps[k] is Refill);
    }
}

/// Every symbol of a row is coded by some thread: its number modulo the number of threads.
pub proof fn lemma_z_covered(len: nat, n: int, i: int)
    requires
        1 <= n,
        0 <= i < len,
    ensures
        0 <= i % n < n,
        covered(order::z_order(len as int, i % n, n), i),
{
    let first = i % n;
    let steps = order::z_order(len as int, first, n);
    let count = len as int / (4 * n);
    let done = count * (4 * n) + first;
    let ones = order::count_from(len as int, done, n);
    div_mod::lemma_mod_bound(i, n);
    div_mod::lemma_div_pos_is_pos(len as int, 4 * n);
    order::lemma_groups_end(len as int, n, first);
    if i < count * (4 * n) {
        lemma_in_group(len as int, n, i);
        let g = i / (4 * n);
        assert(2 * g / 2 == g);
        assert(steps[2 * g] == order::refilled_groups(count, first, n)[2 * g]);
        assert(touches(steps[2 * g], i));
    } else {
        lemma_in_tail(len as int, n, i);
        let j = (i - done) / n;
        assert(steps[2 * count + j] == order::ones(ones, done, n)[j]);
        assert(touches(steps[2 * count + j], i));
    }
}

/// Some thread from the `t`-th on codes a symbol of a row.
pub open spec fn z_coded_from(len: nat, n: int, t: int, i: int) -> bool {
    exists|u: int| t <= u < n && #[trigger] covered(order::z_order(len as int, u, n), i)
}

/// Decoding a row on the threads from the `t`-th on takes back encoding it.
proof fn lemma_z_threads_back(
    cdf: Seq<u8>,
    two: bool,
    readers: Seq<Reader>,
    bases: Seq<Seq<bool>>,
    writers: Seq<Writer>,
    symbols: Seq<u8>,
    row: Seq<u8>,
    t: int,
)
    requires
        cdf.len() == 63,
        tables::z_monotone(cdf),
        symbols.len() == row.len(),
        encoder::symbols_in_range(symbols),
        writers.len() == readers.len(),
        bases.len() == readers.len(),
        0 <= t <= readers.len(),
        forall|u: int| 0 <= u < t ==> agrees(#[trigger] readers[u], bases[u], writers[u], two),
        forall|u: int|
            t <= u < readers.len() ==> agrees(
                #[trigger] readers[u],
                bases[u],
                encoder::spec_encode_row(put_call(cdf, two), writers, symbols)[u],
                two,
            ),
    ensures
        ({
            let m = decoder::spec_decode_row(get_call(cdf, two), readers, row, t);
            &&& m.0.len() == readers.len()
            &&& m.1.len() == row.len()
            &&& forall|u: int|
                0 <= u < readers.len() ==> agrees(#[trigger] m.0[u], bases[u], writers[u], two)
            &&& forall|i: int|
                0 <= i < row.len() ==> #[trigger] m.1[i] == if z_coded_from(
                    row.len(),
                    readers.len() as int,
                    t,
                    i,
                ) {
                    symbols[i]
                } else {
                    row[i]
                }
        }),
    decreases readers.len() - t,
{
    let n = readers.len() as int;
    let get = get_call(cdf, two);
    if t < n {
        let steps = order::z_order(row.len() as int, t, n);
        assert forall|k: int| 0 <= k < steps.len() implies within(
            #[trigger] steps[k],
            row.len(),
        ) by {
            lemma_z_within(row.len(), t, n, k);
        }
        assert(agrees(
            readers[t],
            bases[t],
            encoder::spec_encode_row(put_call(cdf, two), writers, symbols)[t],
            two,
        ));
        lemma_z_run_back(cdf, two, readers[t], bases[t], writers[t], symbols, row, steps);
        let m = get.run((readers[t], row), steps);
        lemma_z_threads_back(
            cdf,
            two,
            readers.update(t, m.0),
            bases,
            writers,
            symbols,
            m.1,
            t + 1,
        );
        assert forall|i: int| 0 <= i < row.len() implies z_coded_from(row.len(), n, t, i) == (
        covered(steps, i) || #[trigger] z_coded_from(row.len(), n, t + 1, i)) by {
            if z_coded_from(row.len(), n, t + 1, i) {
                let u = choose|u: int|
                    t + 1 <= u < n && #[trigger] covered(
                        order::z_order(row.len() as int, u, n),
                        i,
                    );
                assert(covered(order::z_order(row.len() as int, u, n), i));
            }
        }
        assert forall|i: int| 0 <= i < row.len() implies #[trigger] decoder::spec_decode_row(
            get,
            readers,
            row,
            t,
        ).1[i] == if z_coded_from(row.len(), n, t, i) {
            symbols[i]
        } else {
            row[i]
        } by {
            assert(z_coded_from(row.len(), n, t, i) == (covered(steps, i) || z_coded_from(
                row.len(),
                n,
                t + 1,
                i,
            )));
        }
    } else {
        assert forall|i: int| 0 <= i < row.len() implies !z_coded_from(row.len(), n, t, i) by {}
    }
}

/// Decoding a row takes back encoding it.
proof fn lemma_row_back(
    cdf: Seq<u8>,
    two: bool,
    readers: Seq<Reader>,
    bases: Seq<Seq<bool>>,
    writers: Seq<Writer>,
    symbols: Seq<u8>,
    row: Seq<u8>,
)
    requires
        cdf.len() == 63,
        tables::z_monotone(cdf),
        symbols.len() == row.len(),
        encoder::symbols_in_range(symbols),
        readers.len() >= 1,
        writers.len() == readers.len(),
        bases.len() == readers.len(),
        forall|u: int|
            0 <= u < readers.len() ==> agrees(
                #[trigger] readers[u],
                bases[u],
                encoder::spec_encode_row(put_call(cdf, two), writers, symbols)[u],
                two,
            ),
    ensures
        ({
            let m = decoder::spec_decode_row(get_call(cdf, two), readers, row, 0);
            &&& m.0.len() == readers.len()
            &&& m.1 == symbols
            &&& forall|u: int|
                0 <= u < readers.len() ==> agrees(#[trigger] m.0[u], bases[u], writers[u], two)
        }),
{
    lemma_z_threads_back(cdf, two, readers, bases, writers, symbols, row, 0);
    let m = decoder::spec_decode_row(get_call(cdf, two), readers, row, 0);
    let n = readers.len() as int;
    assert forall|i: int| 0 <= i < row.len() implies #[trigger] m.1[i] == symbols[i] by {
        lemma_z_covered(row.len(), n, i);
        assert(z_coded_from(row.len(), n, 0, i));
    }
    assert(m.1 =~= symbols);
}

/// The threads after encoding the channels from the last one down to the `ch`-th.
spec fn encoded_down_to(
    cdfs: Seq<Seq<u8>>,
    size: nat,
    writers: Seq<Writer>,
    symbols: Seq<u8>,
    ch: int,
) -> Seq<Writer>
    decreases cdfs.len() - ch,
{
    if ch >= cdfs.len() {
        writers
    } else {
        encoder::spec_encode_row(
            put_call(cdfs[ch], writers.len() == 1),
            encoded_down_to(cdfs, size, writers, symbols, ch + 1),
            symbols.subrange(ch * size, ch * size + size),
        )
    }
}

/// Encoding can be cut at any channel.
proof fn lemma_encoded_down_to(
    cdfs: Seq<Seq<u8>>,
    size: nat,
    writers: Seq<Writer>,
    symbols: Seq<u8>,
    ch: int,
)
    requires
        0 <= ch <= cdfs.len(),
        forall|c: int| 0 <= c < cdfs.len() ==> tables::z_monotone(#[trigger] cdfs[c]),
    ensures
        encoded_down_to(cdfs, size, writers, symbols, ch).len() == writers.len(),
        encoder::spec_encode_z(cdfs, size, writers, symbols, cdfs.len() as int)
            == encoder::spec_encode_z(
            cdfs,
            size,
            encoded_down_to(cdfs, size, writers, symbols, ch),
            symbols,
            ch,
        ),
    decreases cdfs.len() - ch,
{
    if ch < cdfs.len() {
        lemma_encoded_down_to(cdfs, size, writers, symbols, ch + 1);
        assert(tables::z_monotone(cdfs[ch]));
    }
}

/// The channels from the `ch`-th on come back.
proof fn lemma_channels_back(
    cdfs: Seq<Seq<u8>>,
    size: nat,
    readers: Seq<Reader>,
    bases: Seq<Seq<bool>>,
    writers: Seq<Writer>,
    symbols: Seq<u8>,
    out: Seq<u8>,
    ch: int,
)
    requires
        0 <= ch <= cdfs.len(),
        forall|c: int| 0 <= c < cdfs.len() ==> (#[trigger] cdfs[c]).len() == 63,
        forall|c: int| 0 <= c < cdfs.len() ==> tables::z_monotone(#[trigger] cdfs[c]),
        symbols.len() == cdfs.len() * size,
        out.len() == symbols.len(),
        encoder::symbols_in_range(symbols),
        readers.len() >= 1,
        writers.len() == readers.len(),
        bases.len() == readers.len(),
        forall|u: int|
            0 <= u < readers.len() ==> agrees(
                #[trigger] readers[u],
                bases[u],
                encoded_down_to(cdfs, size, writers, symbols, ch)[u],
                readers.len() == 1,
            ),
    ensures
        ({
            let m = decoder::spec_decode_z(cdfs, size, readers, out, ch);
            &&& m.2
            &&& m.0.len() == readers.len()
            &&& forall|u: int|
                0 <= u < readers.len() ==> agrees(
                    #[trigger] m.0[u],
                    bases[u],
                    writers[u],
                    readers.len() == 1,
                )
            &&& m.1 == out.take(ch * size) + symbols.skip(ch * size)
        }),
    decreases cdfs.len() - ch,
{
    if ch < cdfs.len() {
        let two = readers.len() == 1;
        let (from, to) = (ch * size, ch * size + size);
        assert(0 <= from && to <= cdfs.len() * size && to == (ch + 1) * size) by (nonlinear_arith)
            requires
                0 <= ch,
                ch + 1 <= cdfs.len(),
                from == ch * size,
                to == ch * size + size,
        ;
        lemma_encoded_down_to(cdfs, size, writers, symbols, ch + 1);
        let mid = encoded_down_to(cdfs, size, writers, symbols, ch + 1);
        let part = symbols.subrange(from, to);
        assert forall|i: int| 0 <= i < part.len() implies #[trigger] part[i] <= 63 by {
            assert(symbols[from + i] <= 63);
        }
        assert(cdfs[ch].len() == 63 && tables::z_monotone(cdfs[ch]));
        lemma_row_back(cdfs[ch], two, readers, bases, mid, part, out.subrange(from, to));
        let m = decoder::spec_decode_row(
            get_call(cdfs[ch], two),
            readers,
            out.subrange(from, to),
            0,
        );
        let next = out.subrange(0, from) + m.1 + out.subrange(to, out.len() as int);
        lemma_channels_back(cdfs, size, m.0, bases, writers, symbols, next, ch + 1);
        assert(next.take(to) + symbols.skip(to) =~= out.take(from) + symbols.skip(from));
    } else {
        assert(out.take(ch * size) + symbols.skip(ch * size) =~= out);
    }
}

/// Decoding the hyper-latent gives back what was encoded: where the decoding threads stand where
/// the encoding threads stood after the call, the symbols come out, all of them, and the decoding
/// threads end where the encoding threads stood before the call.
pub proof fn law_z_round_trip(
    cdfs: Seq<Seq<u8>>,
    size: nat,
    readers: Seq<Reader>,
    bases: Seq<Seq<bool>>,
    writers: Seq<Writer>,
    symbols: Seq<u8>,
    out: Seq<u8>,
)
    requires
        forall|c: int| 0 <= c < cdfs.len() ==> (#[trigger] cdfs[c]).len() == 63,
        forall|c: int| 0 <= c < cdfs.len() ==> tables::z_monotone(#[trigger] cdfs[c]),
        symbols.len() == cdfs.len() * size,
        out.len() == symbols.len(),
        encoder::symbols_in_range(symbols),
        readers.len() >= 1,
        writers.len() == readers.len(),
        bases.len() == readers.len(),
        forall|u: int|
            0 <= u < readers.len() ==> agrees(
                #[trigger] readers[u],
                bases[u],
                encoder::spec_encode_z(cdfs, size, writers, symbols, cdfs.len() as int).0[u],
                readers.len() == 1,
            ),
    ensures
        encoder::spec_encode_z(cdfs, size, writers, symbols, cdfs.len() as int).1,
        ({
            let m = decoder::spec_decode_z(cdfs, size, readers, out, 0);
            &&& m.2
            &&& m.1 == symbols
            &&& !decoder::any_failed(m.0)
            &&& m.0.len() == readers.len()
            &&& forall|u: int|
                0 <= u < readers.len() ==> agrees(
                    #[trigger] m.0[u],
                    bases[u],
                    writers[u],
                    readers.len() == 1,
                )
        }),
{
    lemma_encoded_down_to(cdfs, size, writers, symbols, 0);
    lemma_channels_back(cdfs, size, readers, bases, writers, symbols, out, 0);
    let m = decoder::spec_decode_z(cdfs, size, readers, out, 0);
    assert(0 * size == 0);
    assert(out.take(0) + symbols.skip(0) =~= symbols);
    assert forall|u: int| 0 <= u < m.0.len() implies !(#[trigger] m.0[u]).failed by {
        assert(agrees(m.0[u], bases[u], writers[u], readers.len() == 1));
    }
}

/// The bits of zero are all clear.
proof fn lemma_digits_zero(n: nat, i: int)
    requires
        0 <= i < n,
    ensures
        !stack::digits(0, n)[i],
{
    power2::lemma_pow2_pos(i as nat);
    div_mod::lemma_div_of0(power2::pow2(i as nat) as int);
}

/// A thread's byte range opens where its writer stood.
proof fn lemma_open(data: Seq<bool>, end: int, base: Seq<bool>, w: Writer, two: bool)
    requires
        base.len() >= 64,
        0 <= end * 8 <= data.len(),
        data.take(end * 8) == base + w.sealed(two),
    ensures
        decoder::spec_open(data, end, two) matches Ok(r) && agrees(r, base, w, two),
{
    power2::lemma2_to64();
    let n = if two {
        16nat
    } else {
        8
    };
    let states = if two {
        (w.state1 * 256 + w.state2) as nat
    } else {
        w.state1 as nat
    };
    let v = power2::pow2(n) + states;
    let t = w.terminated(two);
    let pad = ((8 - t.len() % 8) % 8) as nat;
    let front = base + w.bits;
    assert(t == w.bits + stack::digits(v, n + 1));
    stack::lemma_digits_split(v, n, 1);
    assert(v / power2::pow2(n) == 1);
    let all = data.take(end * 8);
    let mark = (front.len() + n) as int;
    let parts = front + stack::digits(v, n) + stack::digits(1, 1) + stack::digits(0, pad);
    assert(all =~= parts);
    assert(all.len() == mark + 1 + pad);
    assert(data[mark]) by {
        assert(all[mark] == parts[mark]);
        assert(parts[mark] == stack::digits(1, 1)[0]);
        assert(1nat / 1 == 1);
    }
    assert forall|i: int| mark < i < end * 8 implies !#[trigger] data[i] by {
        assert(all[i] == parts[i]);
        assert(parts[i] == stack::digits(0, pad)[i - mark - 1]);
        lemma_digits_zero(pad, i - mark - 1);
    }
    let from = (end - 8) * 8;
    decoder::lemma_last_set(data, from, end * 8, mark);
    let start = Reader { data, pos: mark, state1: 0, state2: 0, failed: false };
    assert(data.take(mark) =~= front + stack::digits(v, n)) by {
        assert(data.take(mark) =~= all.take(mark));
    }
    if two {
        stack::lemma_digits_split(v, 8, 8);
        let high = v / 256;
        assert(front + stack::digits(v, 16) =~= (front + stack::digits(v, 8)) + stack::digits(
            high,
            8,
        ));
        lemma_next(start, front + stack::digits(v, 8), high, 8);
        assert(start.next(8) == w.state1);
        let one = start.with_state(false, w.state1).skip(8);
        lemma_next(one, front, v, 8);
        assert(one.next(8) == w.state2);
        let r = one.with_state(true, w.state2).skip(8);
        lemma_no_refill(r, base, w, two);
    } else {
        lemma_next(start, front, v, 8);
        assert(start.next(8) == w.state1);
        let r = start.with_state(false, w.state1).skip(8);
        lemma_no_refill(r, base, w, two);
    }
}

/// What lies in front of a thread's byte range.
pub open spec fn base_of(threads: Seq<Seq<u8>>, t: int) -> Seq<bool> {
    stack::of_bytes(decoder::padded(threads.take(t)))
}

/// The payload up to the end of a thread.
proof fn lemma_flat_prefix(threads: Seq<Seq<u8>>, t: int)
    requires
        0 <= t <= threads.len(),
    ensures
        container::flat(threads.take(t)).len() <= container::flat(threads).len(),
        container::flat(threads).take(container::flat(threads.take(t)).len() as int)
            == container::flat(threads.take(t)),
    decreases threads.len() - t,
{
    let all = container::flat(threads);
    if t == threads.len() {
        assert(threads.take(t) =~= threads);
        assert(all.take(all.len() as int) =~= all);
    } else {
        lemma_flat_prefix(threads, t + 1);
        assert(threads.take(t + 1).drop_last() =~= threads.take(t));
        let long = container::flat(threads.take(t + 1));
        let short = container::flat(threads.take(t));
        assert(long == short + threads[t]);
        assert(all.take(short.len() as int) =~= long.take(short.len() as int));
        assert(long.take(short.len() as int) =~= short);
    }
}

/// The threads from the `i`-th on open where their writers stood.
proof fn lemma_open_all(
    threads: Seq<Seq<u8>>,
    writers: Seq<Writer>,
    i: int,
    acc: Seq<Reader>,
)
    requires
        writers.len() == threads.len(),
        0 <= i <= threads.len(),
        acc.len() == i,
        forall|t: int|
            0 <= t < threads.len() ==> stack::of_bytes(#[trigger] threads[t]) == writers[t].sealed(
                threads.len() == 1,
            ),
        forall|t: int|
            0 <= t < i ==> agrees(
                #[trigger] acc[t],
                base_of(threads, t),
                writers[t],
                threads.len() == 1,
            ),
    ensures
        decoder::spec_open_all(threads, i, acc) matches Ok(readers) && readers.len()
            == threads.len() && forall|t: int|
            0 <= t < threads.len() ==> agrees(
                #[trigger] readers[t],
                base_of(threads, t),
                writers[t],
                threads.len() == 1,
            ),
    decreases threads.len() - i,
{
    if i < threads.len() {
        let two = threads.len() == 1;
        let payload = decoder::padded(threads);
        let data = stack::of_bytes(payload);
        let short = container::flat(threads.take(i));
        let long = container::flat(threads.take(i + 1));
        let end = 8 + long.len() as int;
        lemma_flat_prefix(threads, i + 1);
        assert(threads.take(i + 1).drop_last() =~= threads.take(i));
        assert(long == short + threads[i]);
        let front = decoder::padded(threads.take(i));
        assert(payload.take(end) =~= front + threads[i]) by {
            assert(payload.take(end) =~= Seq::new(8, |j: int| 0u8) + container::flat(threads).take(
                long.len() as int,
            ));
        }
        stack::lemma_of_bytes_concat(front, threads[i]);
        stack::lemma_of_bytes_concat(payload.take(end), payload.skip(end));
        assert(payload.take(end) + payload.skip(end) =~= payload);
        assert(data.take(end * 8) =~= stack::of_bytes(payload.take(end)));
        assert(stack::of_bytes(threads[i]) == writers[i].sealed(two));
        lemma_open(data, end, base_of(threads, i), writers[i], two);
        let r = decoder::spec_open(data, end, two)->Ok_0;
        lemma_open_all(threads, writers, i + 1, acc.push(r));
    }
}

/// A decoder opens on what an encoder finished: every thread stands where its writer stood.
pub proof fn law_finished_opens(threads: Seq<Seq<u8>>, writers: Seq<Writer>)
    requires
        writers.len() == threads.len(),
        forall|t: int|
            0 <= t < threads.len() ==> stack::of_bytes(#[trigger] threads[t]) == writers[t].sealed(
                threads.len() == 1,
            ),
    ensures
        decoder::spec_open_all(threads, 0, Seq::empty()) matches Ok(readers) && readers.len()
            == threads.len() && forall|t: int|
            0 <= t < threads.len() ==> agrees(
                #[trigger] readers[t],
                base_of(threads, t),
                writers[t],
                threads.len() == 1,
            ),
{
    lemma_open_all(threads, writers, 0, Seq::empty());
}

/// A payload of residual symbols comes back: a decoder over the byte ranges that an encoder of one
/// call finished gives back every coded value and runs into no end of data.
pub proof fn law_residual_payload(
    pdf: &PdfTables,
    call: ResidualCall,
    values: Seq<i16>,
    out: Seq<i16>,
    threads: Seq<Seq<u8>>,
)
    requires
        pdf.wf(),
        call.tables.of(pdf),
        call.wf(out.len()),
        call.two_states == (threads.len() == 1),
        values.len() == out.len(),
        values_codable(pdf, call, values),
        threads.len() >= 1,
        forall|t: int|
            0 <= t < threads.len() ==> stack::of_bytes(#[trigger] threads[t])
                == encoder::spec_encode_residual(
                call,
                Seq::new(threads.len(), |i: int| Writer::fresh()),
                values,
            )[t].sealed(threads.len() == 1),
    ensures
        decoder::spec_open_all(threads, 0, Seq::empty()) matches Ok(readers) && {
            let m = decoder::spec_decode_residual(call, readers, out, 0);
            &&& !decoder::any_failed(m.0)
            &&& m.1 == Seq::new(
                out.len(),
                |i: int|
                    if call.mask[i] {
                        values[i]
                    } else {
                        out[i]
                    },
            )
        },
{
    let fresh = Seq::new(threads.len(), |i: int| Writer::fresh());
    let writers = encoder::spec_encode_residual(call, fresh, values);
    law_finished_opens(threads, writers);
    let readers = decoder::spec_open_all(threads, 0, Seq::empty())->Ok_0;
    let bases = Seq::new(threads.len(), |t: int| base_of(threads, t));
    assert forall|u: int| 0 <= u < readers.len() implies agrees(
        #[trigger] readers[u],
        bases[u],
        writers[u],
        call.two_states,
    ) by {}
    law_residual_round_trip(pdf, call, readers, bases, fresh, values, out);
}

/// A payload of hyper-latent symbols comes back.
pub proof fn law_z_payload(
    cdfs: Seq<Seq<u8>>,
    size: nat,
    symbols: Seq<u8>,
    out: Seq<u8>,
    threads: Seq<Seq<u8>>,
)
    requires
        forall|c: int| 0 <= c < cdfs.len() ==> (#[trigger] cdfs[c]).len() == 63,
        forall|c: int| 0 <= c < cdfs.len() ==> tables::z_monotone(#[trigger] cdfs[c]),
        symbols.len() == cdfs.len() * size,
        out.len() == symbols.len(),
        encoder::symbols_in_range(symbols),
        threads.len() >= 1,
        forall|t: int|
            0 <= t < threads.len() ==> stack::of_bytes(#[trigger] threads[t])
                == encoder::spec_encode_z(
                cdfs,
                size,
                Seq::new(threads.len(), |i: int| Writer::fresh()),
                symbols,
                cdfs.len() as int,
            ).0[t].sealed(threads.len() == 1),
    ensures
        decoder::spec_open_all(threads, 0, Seq::empty()) matches Ok(readers) && {
            let m = decoder::spec_decode_z(cdfs, size, readers, out, 0);
            m.2 && m.1 == symbols && !decoder::any_failed(m.0)
        },
{
    let fresh = Seq::new(threads.len(), |i: int| Writer::fresh());
    let writers = encoder::spec_encode_z(cdfs, size, fresh, symbols, cdfs.len() as int).0;
    lemma_encoded_down_to(cdfs, size, fresh, symbols, 0);
    law_finished_opens(threads, writers);
    let readers = decoder::spec_open_all(threads, 0, Seq::empty())->Ok_0;
    let bases = Seq::new(threads.len(), |t: int| base_of(threads, t));
    assert forall|u: int| 0 <= u < readers.len() implies agrees(
        #[trigger] readers[u],
        bases[u],
        writers[u],
        readers.len() == 1,
    ) by {}
    law_z_round_trip(cdfs, size, readers, bases, fresh, symbols, out);
}

/// A call with every index above 31 replaced by 31.
pub open spec fn with_clamped(call: ResidualCall) -> ResidualCall {
    ResidualCall {
        sigma: Seq::new(
            call.sigma.len(),
            |i: int|
                if call.sigma[i] < 31 {
                    call.sigma[i]
                } else {
                    31
                },
        ),
        ..call
    }
}

/// A symbol is written the same for a clamped index.
proof fn lemma_clamped_symbol(call: ResidualCall, w: Writer, i: int, value: i16)
    requires
        0 <= i < call.sigma.len(),
    ensures
        with_clamped(call).put_inbound(w, i, value) == call.put_inbound(w, i, value),
        with_clamped(call).put_outbound(w, i, value) == call.put_outbound(w, i, value),
{
    reveal(ResidualCall::put_inbound);
    reveal(ResidualCall::put_outbound);
    assert(with_clamped(call).dist(i) == call.dist(i));
}

/// A step writes the same for clamped indices.
proof fn lemma_clamped_step(call: ResidualCall, w: Writer, values: Seq<i16>, step: Step)
    requires
        within(step, call.sigma.len()),
    ensures
        with_clamped(call).put_step(w, values, step) == call.put_step(w, values, step),
{
    reveal(ResidualCall::put_step);
    match step {
        Step::Group { at, by } => {
            let a = call.put_outbound(w, at + 3 * by, values[at + 3 * by]);
            let b = call.put_outbound(a, at + 2 * by, values[at + 2 * by]);
            let c = call.put_outbound(b, at + by, values[at + by]);
            let d = call.put_outbound(c, at, values[at]);
            let e = call.put_inbound(d, at + 3 * by, values[at + 3 * by]);
            let f = call.put_inbound(e, at + 2 * by, values[at + 2 * by]);
            let g = call.put_inbound(f, at + by, values[at + by]);
            lemma_clamped_symbol(call, w, at + 3 * by, values[at + 3 * by]);
            lemma_clamped_symbol(call, a, at + 2 * by, values[at + 2 * by]);
            lemma_clamped_symbol(call, b, at + by, values[at + by]);
            lemma_clamped_symbol(call, c, at, values[at]);
            lemma_clamped_symbol(call, d, at + 3 * by, values[at + 3 * by]);
            lemma_clamped_symbol(call, e, at + 2 * by, values[at + 2 * by]);
            lemma_clamped_symbol(call, f, at + by, values[at + by]);
            lemma_clamped_symbol(call, g, at, values[at]);
        },
        Step::One(i) => {
            lemma_clamped_symbol(call, w, i, values[i]);
            lemma_clamped_symbol(call, call.put_outbound(w, i, values[i]), i, values[i]);
        },
        Step::Refill => {},
    }
}

proof fn lemma_clamped_run(call: ResidualCall, w: Writer, values: Seq<i16>, steps: Seq<Step>)
    requires
        forall|k: int| 0 <= k < steps.len() ==> within(#[trigger] steps[k], call.sigma.len()),
    ensures
        with_clamped(call).put_run(w, values, steps) == call.put_run(w, values, steps),
    decreases steps.len(),
{
    if steps.len() > 0 {
        assert(within(steps[steps.len() - 1], call.sigma.len()));
        lemma_clamped_step(call, w, values, steps.last());
        let front = steps.drop_last();
        assert forall|k: int| 0 <= k < front.len() implies within(
            #[trigger] front[k],
            call.sigma.len(),
        ) by {
            assert(front[k] == steps[k]);
        }
        lemma_clamped_run(call, call.put_step(w, values, steps.last()), values, front);
    }
}

/// Indices above 31 are clamped: symbols that were encoded with clamped indices are those that
/// the indices themselves encode, so that a decoder may be given either.
pub proof fn law_indices_are_clamped(call: ResidualCall, writers: Seq<Writer>, values: Seq<i16>)
    requires
        values.len() == call.sigma.len(),
    ensures
        encoder::spec_encode_residual(with_clamped(call), writers, values)
            == encoder::spec_encode_residual(call, writers, values),
{
    let n = writers.len() as int;
    assert forall|t: int| 0 <= t < n implies encoder::spec_encode_residual(
        with_clamped(call),
        writers,
        values,
    )[t] == #[trigger] encoder::spec_encode_residual(call, writers, values)[t] by {
        let steps = order::residual_order(values.len() as int, t, n);
        assert forall|k: int| 0 <= k < steps.len() implies within(
            #[trigger] steps[k],
            call.sigma.len(),
        ) by {
            lemma_residual_within(values.len(), t, n, k);
        }
        lemma_clamped_run(call, writers[t], values, steps);
    }
    assert(encoder::spec_encode_residual(with_clamped(call), writers, values)
        =~= encoder::spec_encode_residual(call, writers, values));
}

/// Every value that is not escaped has mass, in every distribution.
pub open spec fn covers_bounds(pdf: &PdfTables) -> bool {
    forall|d: int, v: int|
        0 <= d < 32 && -(pdf.bounds@[d] as int) < v < pdf.bounds@[d] ==> #[trigger] pdf.pmf(
            d,
        )[tables::column_of(v)] > 0
}

/// Where every value that is not escaped has mass, every value can be coded: the escape always has
/// mass.
pub proof fn law_every_value_is_codable(pdf: &PdfTables, call: ResidualCall, values: Seq<i16>)
    requires
        pdf.wf(),
        covers_bounds(pdf),
    ensures
        values_codable(pdf, call, values),
{
    assert forall|i: int| 0 <= i < values.len() && call.mask[i] implies #[trigger] value_codable(
        pdf,
        call.dist(i),
        values[i],
    ) by {
        let d = call.dist(i);
        let b = pdf.bounds@[d];
        assert(1 <= b <= 128);
        let v = encoder::symbol_for(values[i], b);
        if v == -(b as int) {
            assert(tables::column_of(v) == 2 * b - 1);
            assert(pdf.pmf(d)[2 * b - 1] == 1);
        } else {
            assert(pdf.pmf(d)[tables::column_of(v)] > 0);
        }
    }
}

/// Any values come back, escaped ones among them: over distributions that cover their bounds, a
/// decoder that is given the indices reads what an encoder wrote that was given them clamped to 31.
/// Every coded value is in its place, whatever was not coded is as it was, and no thread runs into
/// the end of its data.
pub proof fn law_any_values_come_back(
    pdf: &PdfTables,
    call: ResidualCall,
    values: Seq<i16>,
    out: Seq<i16>,
    threads: Seq<Seq<u8>>,
)
    requires
        pdf.wf(),
        covers_bounds(pdf),
        call.tables.of(pdf),
        call.wf(out.len()),
        call.two_states == (threads.len() == 1),
        values.len() == out.len(),
        threads.len() >= 1,
        forall|t: int|
            0 <= t < threads.len() ==> stack::of_bytes(#[trigger] threads[t])
                == encoder::spec_encode_residual(
                with_clamped(call),
                Seq::new(threads.len(), |i: int| Writer::fresh()),
                values,
            )[t].sealed(threads.len() == 1),
    ensures
        decoder::spec_open_all(threads, 0, Seq::empty()) matches Ok(readers) && {
            let m = decoder::spec_decode_residual(call, readers, out, 0);
            &&& !decoder::any_failed(m.0)
            &&& m.1 == Seq::new(
                out.len(),
                |i: int|
                    if call.mask[i] {
                        values[i]
                    } else {
                        out[i]
                    },
            )
        },
{
    law_indices_are_clamped(call, Seq::new(threads.len(), |i: int| Writer::fresh()), values);
    law_every_value_is_codable(pdf, call, values);
    law_residual_payload(pdf, call, values, out, threads);
}

} // verus!
