//! Decoded hyper-latent symbols have six bits, whatever the payload holds.

use vstd::prelude::*;
use vstd::arithmetic::power2;

use crate::mans::decoder;
use crate::mans::decoder::{Reader, ZCall};
use crate::mans::order;
use crate::mans::order::Step;
use crate::mans::round_trip;
use crate::mans::stack;
use crate::mans::tables;

verus! {

/// A thread has `n` unread bits, and a buffer that it can start over in.
pub open spec fn ready(r: Reader, n: int) -> bool {
    &&& 64 <= r.data.len()
    &&& 0 <= n <= r.pos <= r.data.len()
}

/// Every thread has a full window.
pub open spec fn all_ready(readers: Seq<Reader>) -> bool {
    forall|t: int| 0 <= t < readers.len() ==> ready(#[trigger] readers[t], 56)
}

/// A state is owned by the symbol whose mass holds it.
proof fn lemma_owner(cdf: Seq<u8>, s: int, from: int)
    requires
        cdf.len() == 63,
        0 <= from <= 63,
        0 <= s,
        from > 0 ==> cdf[from - 1] <= s,
    ensures
        ({
            let sym = tables::z_owner(cdf, s, from);
            from <= sym <= 63 && (sym < 63 ==> tables::z_start(cdf, sym) <= s < cdf[sym])
        }),
    decreases 63 - from,
{
    if from < 63 && s >= cdf[from] {
        lemma_owner(cdf, s, from + 1);
    }
}

/// A decoder entry shifts in at most eight bits and names a symbol of six.
proof fn lemma_entry(cdf: Seq<u8>, s: int)
    requires
        cdf.len() == 63,
        0 <= s < 256,
    ensures
        tables::z_decode_table(cdf).len() == 256,
        tables::bits_in(tables::z_decode_table(cdf)[s]) <= 8,
        tables::z_decode_table(cdf)[s] % 256 <= 63,
{
    reveal(tables::z_decode_table);
    lemma_owner(cdf, s, 0);
    let sym = tables::z_owner(cdf, s, 0);
    if s == 255 {
        tables::lemma_decode_entry(1, 63);
    } else if sym < 63 {
        tables::lemma_decode_entry(
            (tables::z_mass(cdf, sym) + (s - tables::z_start(cdf, sym))) as nat,
            sym,
        );
    }
}

/// Bits that a step may take from the window.
pub open spec fn need(step: Step) -> int {
    match step {
        Step::Group { at, by } => 56,
        Step::One(i) => 14,
        Step::Refill => 0,
    }
}

/// Bits that are left in the window after a step.
pub open spec fn left(step: Step, have: int) -> int {
    if step is Refill {
        56
    } else {
        have - need(step)
    }
}

proof fn lemma_inbound(cdf: Seq<u8>, two: bool, m: (Reader, Seq<u8>), i: int, have: int)
    requires
        cdf.len() == 63,
        ready(m.0, have),
        8 <= have,
        0 <= i < m.1.len(),
    ensures
        ({
            let a = round_trip::get_call(cdf, two).inbound(m, i);
            &&& ready(a.0, have - 8)
            &&& a.1.len() == m.1.len()
            &&& a.1[i] <= 63
            &&& forall|j: int| 0 <= j < m.1.len() && j != i ==> #[trigger] a.1[j] == m.1[j]
        }),
{
    reveal(ZCall::inbound);
    let call = round_trip::get_call(cdf, two);
    lemma_entry(cdf, m.0.state(call.second(i)) as int);
}

proof fn lemma_outbound(cdf: Seq<u8>, two: bool, m: (Reader, Seq<u8>), i: int, have: int)
    requires
        ready(m.0, have),
        6 <= have,
        0 <= i < m.1.len(),
        m.1[i] <= 63,
    ensures
        ({
            let a = round_trip::get_call(cdf, two).outbound(m, i);
            &&& ready(a.0, have - 6)
            &&& a.1.len() == m.1.len()
            &&& a.1[i] <= 63
            &&& forall|j: int| 0 <= j < m.1.len() && j != i ==> #[trigger] a.1[j] == m.1[j]
        }),
{
    reveal(ZCall::outbound);
    power2::lemma2_to64();
    stack::lemma_number_bound(m.0.data.subrange(m.0.pos - 6, m.0.pos));
}

/// A step leaves symbols of six bits where it decodes, and the others alone.
proof fn lemma_step(cdf: Seq<u8>, two: bool, m: (Reader, Seq<u8>), step: Step, have: int)
    requires
        cdf.len() == 63,
        ready(m.0, have),
        need(step) <= have,
        round_trip::within(step, m.1.len()),
    ensures
        ({
            let a = round_trip::get_call(cdf, two).step(m, step);
            &&& ready(a.0, left(step, have))
            &&& a.1.len() == m.1.len()
            &&& forall|j: int|
                0 <= j < m.1.len() && (round_trip::touches(step, j) || m.1[j] <= 63)
                    ==> #[trigger] a.1[j] <= 63
        }),
{
    reveal(ZCall::step);
    let call = round_trip::get_call(cdf, two);
    match step {
        Step::Group { at, by } => {
            let a = call.inbound(m, at);
            let b = call.inbound(a, at + by);
            let c = call.inbound(b, at + 2 * by);
            let d = call.inbound(c, at + 3 * by);
            let e = call.outbound(d, at);
            let f = call.outbound(e, at + by);
            let g = call.outbound(f, at + 2 * by);
            lemma_inbound(cdf, two, m, at, have);
            lemma_inbound(cdf, two, a, at + by, have - 8);
            lemma_inbound(cdf, two, b, at + 2 * by, have - 16);
            lemma_inbound(cdf, two, c, at + 3 * by, have - 24);
            lemma_outbound(cdf, two, d, at, have - 32);
            lemma_outbound(cdf, two, e, at + by, have - 38);
            lemma_outbound(cdf, two, f, at + 2 * by, have - 44);
            lemma_outbound(cdf, two, g, at + 3 * by, have - 50);
        },
        Step::One(i) => {
            lemma_inbound(cdf, two, m, i, have);
            lemma_outbound(cdf, two, call.inbound(m, i), i, have - 8);
        },
        Step::Refill => {},
    }
}

/// The window holds enough for each of the steps; `have` says how much before each.
spec fn fed(steps: Seq<Step>, have: Seq<int>) -> bool {
    &&& have.len() == steps.len() + 1
    &&& forall|k: int|
        0 <= k < steps.len() ==> #[trigger] need(steps[k]) <= have[k] && 0 <= have[k + 1] <= left(
            steps[k],
            have[k],
        )
}

proof fn lemma_run(
    cdf: Seq<u8>,
    two: bool,
    m: (Reader, Seq<u8>),
    steps: Seq<Step>,
    have: Seq<int>,
)
    requires
        cdf.len() == 63,
        fed(steps, have),
        ready(m.0, have[0]),
        forall|k: int| 0 <= k < steps.len() ==> round_trip::within(#[trigger] steps[k], m.1.len()),
    ensures
        ({
            let a = round_trip::get_call(cdf, two).run(m, steps);
            &&& ready(a.0, have.last())
            &&& a.1.len() == m.1.len()
            &&& forall|j: int|
                0 <= j < m.1.len() && (round_trip::covered(steps, j) || m.1[j] <= 63)
                    ==> #[trigger] a.1[j] <= 63
        }),
    decreases steps.len(),
{
    if steps.len() > 0 {
        let call = round_trip::get_call(cdf, two);
        assert(need(steps[0]) <= have[0]);
        assert(round_trip::within(steps[0], m.1.len()));
        lemma_step(cdf, two, m, steps[0], have[0]);
        let a = call.step(m, steps[0]);
        let (rest, after) = (steps.skip(1), have.skip(1));
        assert forall|k: int| 0 <= k < rest.len() implies #[trigger] need(rest[k]) <= after[k] && 0
            <= after[k + 1] <= left(rest[k], after[k]) by {
            assert(need(steps[k + 1]) <= have[k + 1]);
        }
        assert forall|k: int| 0 <= k < rest.len() implies round_trip::within(
            #[trigger] rest[k],
            a.1.len(),
        ) by {
            assert(round_trip::within(steps[k + 1], m.1.len()));
        }
        lemma_run(cdf, two, a, rest, after);
        let b = call.run(a, rest);
        assert forall|j: int|
            0 <= j < m.1.len() && (round_trip::covered(steps, j) || m.1[j] <= 63) implies
            #[trigger] b.1[j] <= 63 by {
            if round_trip::covered(steps, j) && !round_trip::touches(steps[0], j) {
                let k = choose|k: int|
                    0 <= k < steps.len() && #[trigger] round_trip::touches(steps[k], j);
                assert(round_trip::touches(rest[k - 1], j));
                assert(round_trip::covered(rest, j));
            } else {
                assert(a.1[j] <= 63);
            }
        }
    }
}

/// What the window holds before each step of a thread's order of a row.
spec fn z_have(len: int, first: int, n: int) -> Seq<int> {
    let groups = 2 * (len / (4 * n));
    let steps = order::z_order(len, first, n);
    Seq::new(
        steps.len() + 1,
        |k: int|
            if k < groups {
                if k % 2 == 0 {
                    56
                } else {
                    0
                }
            } else if k < steps.len() - 1 {
                56 - 14 * (k - groups)
            } else if k == steps.len() - 1 {
                0
            } else {
                56
            },
    )
}

proof fn lemma_z_fed(len: int, first: int, n: int)
    requires
        0 <= len,
        1 <= n,
        0 <= first < n,
    ensures
        fed(order::z_order(len, first, n), z_have(len, first, n)),
        z_have(len, first, n)[0] <= 56,
        z_have(len, first, n).last() == 56,
{
    let steps = order::z_order(len, first, n);
    let have = z_have(len, first, n);
    let count = len / (4 * n);
    let done = count * (4 * n) + first;
    let ones = order::count_from(len, done, n);
    order::lemma_groups_end(len, n, first);
    vstd::arithmetic::div_mod::lemma_div_pos_is_pos(len, 4 * n);
    if done < len {
        order::lemma_count_from(len, done, n, 4);
        assert(n * 4 == 4 * n);
    }
    assert(0 <= ones <= 4);
    assert(steps.len() == 2 * count + ones + 1);
    assert forall|k: int| 0 <= k < steps.len() implies #[trigger] need(steps[k]) <= have[k] && 0
        <= have[k + 1] <= left(steps[k], have[k]) by {
        if k < 2 * count {
            assert(steps[k] == order::refilled_groups(count, first, n)[k]);
        } else if k < 2 * count + ones {
            assert(steps[k] == order::ones(ones, done, n)[k - 2 * count]);
        } else {
            assert(steps[k] is Refill);
        }
    }
}

/// The threads from the `t`-th on leave symbols of six bits where they decode.
proof fn lemma_row(cdf: Seq<u8>, two: bool, readers: Seq<Reader>, row: Seq<u8>, t: int)
    requires
        cdf.len() == 63,
        all_ready(readers),
        0 <= t <= readers.len(),
    ensures
        ({
            let m = decoder::spec_decode_row(round_trip::get_call(cdf, two), readers, row, t);
            &&& m.0.len() == readers.len()
            &&& all_ready(m.0)
            &&& m.1.len() == row.len()
            &&& forall|i: int|
                0 <= i < row.len() && (round_trip::z_coded_from(
                    row.len(),
                    readers.len() as int,
                    t,
                    i,
                ) || row[i] <= 63) ==> #[trigger] m.1[i] <= 63
        }),
    decreases readers.len() - t,
{
    let n = readers.len() as int;
    let call = round_trip::get_call(cdf, two);
    if t < n {
        let steps = order::z_order(row.len() as int, t, n);
        assert forall|k: int| 0 <= k < steps.len() implies round_trip::within(
            #[trigger] steps[k],
            row.len(),
        ) by {
            round_trip::lemma_z_within(row.len(), t, n, k);
        }
        lemma_z_fed(row.len() as int, t, n);
        assert(ready(readers[t], 56));
        lemma_run(cdf, two, (readers[t], row), steps, z_have(row.len() as int, t, n));
        let m = call.run((readers[t], row), steps);
        let next = readers.update(t, m.0);
        assert forall|u: int| 0 <= u < next.len() implies ready(#[trigger] next[u], 56) by {
            assert(ready(readers[u], 56));
        }
        lemma_row(cdf, two, next, m.1, t + 1);
        let r = decoder::spec_decode_row(call, next, m.1, t + 1);
        assert forall|i: int|
            0 <= i < row.len() && (round_trip::z_coded_from(row.len(), n, t, i) || row[i]
                <= 63) implies #[trigger] r.1[i] <= 63 by {
            if !round_trip::z_coded_from(row.len(), n, t + 1, i) && row[i] > 63 {
                let u = choose|u: int|
                    t <= u < n && #[trigger] round_trip::covered(
                        order::z_order(row.len() as int, u, n),
                        i,
                    );
                assert(u == t);
            }
        }
    }
}

/// The channels from the `ch`-th on give symbols of six bits.
proof fn lemma_channels(
    cdfs: Seq<Seq<u8>>,
    size: nat,
    readers: Seq<Reader>,
    out: Seq<u8>,
    ch: int,
)
    requires
        forall|c: int| 0 <= c < cdfs.len() ==> (#[trigger] cdfs[c]).len() == 63,
        readers.len() >= 1,
        all_ready(readers),
        0 <= ch <= cdfs.len(),
        out.len() == cdfs.len() * size,
    ensures
        ({
            let m = decoder::spec_decode_z(cdfs, size, readers, out, ch);
            &&& m.0.len() == readers.len()
            &&& all_ready(m.0)
            &&& m.1.len() == out.len()
            &&& forall|i: int| 0 <= i < ch * size ==> #[trigger] m.1[i] == out[i]
            &&& m.2 ==> forall|i: int| ch * size <= i < out.len() ==> #[trigger] m.1[i] <= 63
        }),
    decreases cdfs.len() - ch,
{
    if ch < cdfs.len() && tables::z_monotone(cdfs[ch]) {
        let two = readers.len() == 1;
        let (from, to) = (ch * size, ch * size + size);
        assert(0 <= from && to == (ch + 1) * size && to <= out.len()) by (nonlinear_arith)
            requires
                0 <= ch < cdfs.len(),
                from == ch * size,
                to == ch * size + size,
                out.len() == cdfs.len() * size,
        ;
        let row = out.subrange(from, to);
        assert(cdfs[ch].len() == 63);
        lemma_row(cdfs[ch], two, readers, row, 0);
        let m = decoder::spec_decode_row(
            round_trip::get_call(cdfs[ch], two),
            readers,
            row,
            0,
        );
        let next = out.subrange(0, from) + m.1 + out.subrange(to, out.len() as int);
        assert forall|i: int| 0 <= i < row.len() implies #[trigger] m.1[i] <= 63 by {
            round_trip::lemma_z_covered(row.len(), readers.len() as int, i);
            assert(round_trip::z_coded_from(row.len(), readers.len() as int, 0, i));
        }
        lemma_channels(cdfs, size, m.0, next, ch + 1);
        let r = decoder::spec_decode_z(cdfs, size, m.0, next, ch + 1);
        assert forall|i: int| 0 <= i < from implies #[trigger] r.1[i] == out[i] by {
            assert(r.1[i] == next[i]);
        }
        if r.2 {
            assert forall|i: int| from <= i < out.len() implies #[trigger] r.1[i] <= 63 by {
                if i < to {
                    assert(r.1[i] == next[i]);
                    assert(next[i] == m.1[i - from]);
                }
            }
        }
    } else if ch == cdfs.len() {
        assert(ch * size == out.len());
    }
}

/// Whatever the payload holds, decoding a hyper-latent gives symbols of at most 63.
pub proof fn law_hyper_symbols_are_small(
    cdfs: Seq<Seq<u8>>,
    size: nat,
    readers: Seq<Reader>,
    out: Seq<u8>,
)
    requires
        forall|c: int| 0 <= c < cdfs.len() ==> (#[trigger] cdfs[c]).len() == 63,
        readers.len() >= 1,
        all_ready(readers),
        out.len() == cdfs.len() * size,
    ensures
        ({
            let m = decoder::spec_decode_z(cdfs, size, readers, out, 0);
            &&& all_ready(m.0)
            &&& m.1.len() == out.len()
            &&& m.2 ==> forall|i: int| 0 <= i < out.len() ==> #[trigger] m.1[i] <= 63
        }),
{
    lemma_channels(cdfs, size, readers, out, 0);
}

} // verus!
