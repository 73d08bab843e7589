//! The entropy coder: its tables, the order of its symbols, and what it writes for each.

use vstd::prelude::*;
use vstd::arithmetic::div_mod;
use vstd::arithmetic::power2;

use crate::bitio;
use crate::bits;
use crate::laws::geometry::covers;
use crate::mans::decoder;
use crate::mans::decoder::{Reader, ResidualCall, ZCall};
use crate::mans::encoder;
use crate::mans::encoder::{PutZCall, Writer};
use crate::mans::order;
use crate::mans::order::Step;
use crate::mans::stack;
use crate::mans::tables;
use crate::mans::tables::PdfTables;

verus! {

/// A distribution index selects its own distribution; indices past the last select the last.
pub proof fn law_indices_select_their_distribution(index: u8)
    ensures
        index <= 31 ==> tables::spec_dist(index) == index,
        index > 31 ==> tables::spec_dist(index) == 31,
{
}

/// A number is shifted by as many bits as bring it between 256 and 511.
pub proof fn law_numbers_are_normalized(v: nat)
    requires
        1 <= v < 512,
    ensures
        256 <= v * power2::pow2(tables::spec_renorm(v)) < 512,
        v >= 256 ==> tables::spec_renorm(v) == 0,
{
    let w = bitio::bit_width(v);
    bitio::lemma_bit_width(v);
    power2::lemma2_to64();
    if w >= 10 {
        if w > 10 {
            power2::lemma_pow2_strictly_increases(9, (w - 1) as nat);
        }
        assert(false);
    }
    let (a, b) = (power2::pow2((w - 1) as nat), power2::pow2(w));
    if w < 9 {
        let r = tables::spec_renorm(v);
        power2::lemma_pow2_adds((w - 1) as nat, r);
        power2::lemma_pow2_adds(w, r);
        assert(a * power2::pow2(r) == 256 && b * power2::pow2(r) == 512);
        assert(256 <= v * power2::pow2(r) < 512) by (nonlinear_arith)
            requires
                a <= v < b,
                a * power2::pow2(r) == 256,
                b * power2::pow2(r) == 512,
                power2::pow2(r) >= 1,
        ;
        if v >= 256 {
            if w < 8 {
                power2::lemma_pow2_strictly_increases(w, 8);
            }
            assert(false);
        }
    } else {
        assert(v * 1 == v);
    }
}

/// Columns hold 0, then each negative number and its opposite in turn.
pub proof fn law_columns_alternate(k: int)
    requires
        0 <= k,
    ensures
        tables::symbol_at(2 * k) == k,
        tables::symbol_at(2 * k + 1) == -(k + 1),
        tables::column_of(k) == 2 * k,
        tables::column_of(-(k + 1)) == 2 * k + 1,
{
}

/// The escape column of a distribution has one unit of mass, and every other what its row says.
pub proof fn law_escapes_have_one_unit(row: Seq<u8>, bound: u8, c: int)
    requires
        0 <= c < 256,
        1 <= bound <= 128,
    ensures
        tables::pmf_of(row, bound).len() == 256,
        tables::symbol_at(c) == -(bound as int) ==> tables::pmf_of(row, bound)[c] == 1,
        tables::symbol_at(c) != -(bound as int) ==> tables::pmf_of(row, bound)[c] == if c
            < row.len() {
            row[c] as nat
        } else {
            0
        },
{
}

/// The mass of columns adds up.
pub proof fn law_mass_adds_up(pmf: Seq<nat>, c: int)
    requires
        0 <= c,
    ensures
        tables::mass(pmf, 0) == 0,
        tables::mass(pmf, c + 1) == tables::mass(pmf, c) + pmf[c],
{
}

/// The place of a state in the mass: the lower states have the even places, the upper the odd.
pub open spec fn place_of(state: int) -> int {
    if state < 128 {
        2 * state
    } else {
        2 * (state - 128) + 1
    }
}

/// The states of a symbol are those whose place lies in its mass, in rising order.
pub proof fn law_states_lie_in_the_mass(c0: int, c1: int, k: int, j: int)
    requires
        0 <= c0 <= c1 <= 256,
        0 <= j < k < c1 - c0,
    ensures
        0 <= tables::state_of(c0, c1, j) < tables::state_of(c0, c1, k) < 256,
        c0 <= place_of(tables::state_of(c0, c1, k)) < c1,
        c0 <= place_of(tables::state_of(c0, c1, j)) < c1,
{
}

/// A decoder entry is a bit count, a state and a symbol, from the top down.
pub proof fn law_entries_are_packed(n: nat, base: int, symbol: int, entry: u32)
    requires
        n < 256,
        0 <= base < 256,
        0 <= symbol < 0x1_0000,
        entry == n * 0x100_0000 + base * 0x1_0000 + symbol,
    ensures
        tables::bits_in(entry) == n,
        tables::base_in(entry) == base,
        entry as int % 0x1_0000 == symbol,
{
}

/// The entry of a number shifts in what brings it between 256 and 511, and starts from there.
pub proof fn law_entries_normalize(next: nat, symbol: int)
    requires
        1 <= next < 512,
        -0x8000 <= symbol < 0x8000,
    ensures
        ({
            let e = tables::decode_entry(next, symbol);
            &&& 0 <= e <= u32::MAX
            &&& 256 + tables::base_in(e as u32) == next * power2::pow2(tables::bits_in(e as u32))
            &&& decoder::signed16(e % 0x1_0000) == symbol
        }),
{
    law_numbers_are_normalized(next);
    let n = tables::spec_renorm(next);
    let base = next * power2::pow2(n) - 256;
    let sym = symbol % 0x1_0000;
    let e = tables::decode_entry(next, symbol);
    assert(n <= 9);
    law_entries_are_packed(n, base, sym, e as u32);
}

/// Sixteen bits stand for a number between minus and plus 32768 that is theirs, wrapped around.
pub proof fn law_sixteen_bits_are_signed(v: int)
    requires
        0 <= v < 0x1_0000,
    ensures
        decoder::signed16(v) as int == v || decoder::signed16(v) as int == v - 0x1_0000,
        decoder::signed16(v) < 0 <==> v >= 0x8000,
{
}

/// A value within its bound is its own symbol; any other is the escape symbol and comes back from
/// its escape code, which is even for values that are not negative and counts from the bound.
pub proof fn law_escapes_come_back(value: i16, bound: u8)
    requires
        1 <= bound <= 128,
    ensures
        -(bound as int) < value < bound ==> encoder::symbol_for(value, bound) == value,
        !(-(bound as int) < value < bound) ==> {
            let code = encoder::escape_code(value, bound);
            &&& encoder::symbol_for(value, bound) == -(bound as int)
            &&& 0 <= code < 0x1_0000
            &&& code % 2 == 0 <==> value >= 0
            &&& value >= 0 ==> value == bound + code / 2
            &&& value < 0 ==> -value == bound + code / 2
            &&& decoder::escape_value(code as nat, bound) == value
        },
{
}

/// An escape code below 8 takes three bits under a set bit, any other sixteen under a cleared one;
/// the bit on top is the first that is read.
pub proof fn law_short_escapes_take_four_bits(call: ResidualCall, w: Writer, i: int, value: i16)
    requires
        call.mask[i],
        1 <= call.bound(i) <= 128,
        !(-(call.bound(i) as int) < value < call.bound(i)),
    ensures
        ({
            let code = encoder::escape_code(value, call.bound(i));
            let after = call.put_outbound(w, i, value).bits;
            let added = after.skip(w.bits.len() as int);
            &&& after.take(w.bits.len() as int) == w.bits
            &&& code < 8 ==> added.len() == 4 && added[3]
            &&& code >= 8 ==> added.len() == 17 && !added[16]
            &&& forall|k: int|
                0 <= k < added.len() - 1 ==> #[trigger] added[k] == ((code / power2::pow2(
                    k as nat,
                ) as int) % 2 == 1)
        }),
{
    reveal(ResidualCall::put_outbound);
    let code = encoder::escape_code(value, call.bound(i));
    law_escapes_come_back(value, call.bound(i));
    power2::lemma2_to64();
    let short = code < 8;
    let (v, n) = if short {
        ((code + 8) as nat, 4nat)
    } else {
        (code as nat, 17nat)
    };
    let after = w.bits + stack::digits(v, n);
    assert(after.take(w.bits.len() as int) =~= w.bits);
    let added = after.skip(w.bits.len() as int);
    assert(added =~= stack::digits(v, n));
    if short {
        assert forall|k: int| 0 <= k < 3 implies #[trigger] added[k] == ((code / power2::pow2(
            k as nat,
        ) as int) % 2 == 1) by {
            assert(added[k] == ((v / power2::pow2(k as nat)) % 2 == 1));
            if k == 0 {
                assert(power2::pow2(k as nat) == 1);
                assert(v / 1 == v && code / 1 == code);
                assert((code + 8) % 2 == code % 2);
            } else if k == 1 {
                assert(power2::pow2(k as nat) == 2);
                assert((code + 8) / 2 == code / 2 + 4);
            } else {
                assert(power2::pow2(k as nat) == 4);
                assert((code + 8) / 4 == code / 4 + 2);
            }
        }
        assert((code + 8) / 8 % 2 == 1);
    } else {
        assert(code / 0x1_0000 == 0);
    }
}

/// A value that is within its bound or not coded writes no escape; one that is not coded writes
/// nothing at all.
pub proof fn law_uncoded_values_write_nothing(call: ResidualCall, w: Writer, i: int, value: i16)
    ensures
        !call.mask[i] || -(call.bound(i) as int) < value < call.bound(i) ==> call.put_outbound(
            w,
            i,
            value,
        ) == w,
        !call.mask[i] ==> call.put_inbound(w, i, value) == w,
{
    reveal(ResidualCall::put_outbound);
    reveal(ResidualCall::put_inbound);
}

/// Symbols alternate between the coder states where there are two.
pub proof fn law_states_alternate(call: ResidualCall, i: int)
    ensures
        !call.two_states ==> !call.second(i),
        call.two_states ==> !call.second(2 * i) && call.second(2 * i + 1),
{
}

/// How many symbols a thread has from one on, every `by`-th.
pub proof fn law_threads_count_their_symbols(len: int, first: int, by: int)
    requires
        1 <= by,
        0 <= first,
    ensures
        first >= len ==> order::count_from(len, first, by) == 0,
        first < len ==> covers(order::count_from(len, first, by), by, len - first),
{
    if first < len {
        crate::laws::geometry::law_quotients_are_rounded_up(len - first, by);
    }
}

/// A single thread codes its symbols in their order: in groups of four, then what is left one by one.
pub proof fn law_one_thread_codes_in_order(len: int, i: int)
    requires
        0 <= i < len,
    ensures
        ({
            let steps = order::residual_order(len, 0, 1);
            let g = len / 4;
            &&& i < 4 * g ==> steps[i / 4] == Step::Group { at: 4 * (i / 4), by: 1 }
            &&& i >= 4 * g ==> exists|j: int| g <= j < steps.len() && #[trigger] steps[j] == Step::One(i)
            &&& len % 4 == 0 ==> steps.len() == g
        }),
{
    let steps = order::residual_order(len, 0, 1);
    let g = len / 4;
    let tail = order::residual_tail(len);
    let head = order::groups(g, 0, 1);
    if i < 4 * g {
        assert(steps[i / 4] == head[i / 4]);
        assert(4 * 1 * (i / 4) == 4 * (i / 4));
    } else {
        let at = 4 * g;
        assert(i == at || i == at + 1 || i == at + 2);
        let j = if i == at {
            0int
        } else if i == at + 1 {
            1
        } else {
            3
        };
        assert(tail[j] == Step::One(i));
        assert(steps[g + j] == tail[j]);
    }
}

/// Of several threads each codes every `n`-th symbol from its own on: in groups of four, then what
/// is left one by one, with a refill behind each.
pub proof fn law_threads_take_turns(len: int, first: int, n: int, k: int)
    requires
        2 <= n,
        0 <= first < n,
        0 <= k,
        first + n * k < len,
    ensures
        ({
            let steps = order::residual_order(len, first, n);
            let g = len / (4 * n);
            &&& k < 4 * g ==> steps[k / 4] == Step::Group { at: first + n * (4 * (k / 4)), by: n }
            &&& k >= 4 * g ==> steps[g + 2 * (k - 4 * g)] == Step::One(first + n * k) && steps[g + 2
                * (k - 4 * g) + 1] == Step::Refill
        }),
{
    let steps = order::residual_order(len, first, n);
    let g = len / (4 * n);
    let head = order::groups(g, first, n);
    let done = g * (4 * n) + first;
    let count = order::count_from(len, done, n);
    assert(0 <= g) by {
        div_mod::lemma_div_pos_is_pos(len, 4 * n);
    }
    if k < 4 * g {
        let q = k / 4;
        assert(steps[q] == head[q]);
        assert(4 * n * q == n * (4 * q)) by (nonlinear_arith);
    } else {
        let j = k - 4 * g;
        assert(done + n * j == first + n * k) by (nonlinear_arith)
            requires
                done == g * (4 * n) + first,
                j == k - 4 * g,
        ;
        assert(0 <= n * j) by (nonlinear_arith)
            requires
                0 <= j,
                2 <= n,
        ;
        law_threads_count_their_symbols(len, done, n);
        assert(j < count) by (nonlinear_arith)
            requires
                count * n - n < len - done <= count * n,
                n * j < len - done,
                2 <= n,
        ;
        let tail = order::refilled_ones(count, done, n);
        assert(steps[g + 2 * j] == tail[2 * j]);
        assert(steps[g + 2 * j + 1] == tail[2 * j + 1]);
        assert((2 * j) / 2 == j && (2 * j) % 2 == 0 && (2 * j + 1) % 2 == 1);
    }
}

/// Hyper-latent symbols go in the same turns, with a refill behind each group and one at the end.
pub proof fn law_hyper_threads_take_turns(len: int, first: int, n: int, k: int)
    requires
        1 <= n,
        0 <= first < n,
        0 <= k,
        first + n * k < len,
    ensures
        ({
            let steps = order::z_order(len, first, n);
            let g = len / (4 * n);
            &&& steps.last() == Step::Refill
            &&& k < 4 * g ==> steps[2 * (k / 4)] == Step::Group {
                at: first + n * (4 * (k / 4)),
                by: n,
            } && steps[2 * (k / 4) + 1] == Step::Refill
            &&& k >= 4 * g ==> steps[2 * g + (k - 4 * g)] == Step::One(first + n * k)
        }),
{
    let steps = order::z_order(len, first, n);
    let g = len / (4 * n);
    let head = order::refilled_groups(g, first, n);
    let done = g * (4 * n) + first;
    let count = order::count_from(len, done, n);
    assert(0 <= g) by {
        div_mod::lemma_div_pos_is_pos(len, 4 * n);
    }
    if k < 4 * g {
        let q = k / 4;
        assert(steps[2 * q] == head[2 * q]);
        assert(steps[2 * q + 1] == head[2 * q + 1]);
        assert((2 * q) / 2 == q && (2 * q) % 2 == 0 && (2 * q + 1) % 2 == 1);
        assert(4 * n * q == n * (4 * q)) by (nonlinear_arith);
    } else {
        let j = k - 4 * g;
        assert(done + n * j == first + n * k) by (nonlinear_arith)
            requires
                done == g * (4 * n) + first,
                j == k - 4 * g,
        ;
        assert(0 <= n * j) by (nonlinear_arith)
            requires
                0 <= j,
                1 <= n,
        ;
        law_threads_count_their_symbols(len, done, n);
        assert(j < count) by (nonlinear_arith)
            requires
                count * n - n < len - done <= count * n,
                n * j < len - done,
                1 <= n,
        ;
        let tail = order::ones(count, done, n);
        assert(steps[2 * g + j] == tail[j]);
    }
}

/// The masses of hyper-latent symbols follow each other; the escape has the last place alone.
pub proof fn law_hyper_masses_follow_each_other(cdf: Seq<u8>, sym: int)
    requires
        cdf.len() == 63,
        0 <= sym < 62,
    ensures
        tables::z_start(cdf, 0) == 0,
        tables::z_start(cdf, sym + 1) == tables::z_start(cdf, sym) + tables::z_mass(cdf, sym),
        tables::z_start(cdf, sym + 1) == cdf[sym],
        tables::z_start(cdf, 63) == 255 && tables::z_mass(cdf, 63) == 1,
        tables::z_mass(cdf, 62) == cdf[62] - cdf[61],
{
}

/// A state belongs to the symbol whose mass it lies in.
pub proof fn law_states_belong_to_their_symbol(cdf: Seq<u8>, s: int, sym: int)
    requires
        cdf.len() == 63,
        tables::z_monotone(cdf),
        0 <= sym < 63,
    ensures
        tables::z_owner(cdf, s, 0) == sym <==> s < cdf[sym] && forall|k: int|
            0 <= k < sym ==> #[trigger] cdf[k] <= s,
        tables::z_owner(cdf, s, 0) == 63 <==> forall|k: int| 0 <= k < 63 ==> #[trigger] cdf[k] <= s,
{
    lemma_owner(cdf, s, 0);
}

proof fn lemma_owner(cdf: Seq<u8>, s: int, from: int)
    requires
        cdf.len() == 63,
        0 <= from <= 63,
    ensures
        ({
            let o = tables::z_owner(cdf, s, from);
            &&& from <= o <= 63
            &&& o < 63 ==> s < cdf[o]
            &&& forall|k: int| from <= k < o ==> #[trigger] cdf[k] <= s
        }),
    decreases 63 - from,
{
    if from < 63 && cdf[from] <= s {
        lemma_owner(cdf, s, from + 1);
    }
}

/// The entry of a table of frequencies is their running share of 255, rounded to the nearest.
pub proof fn law_shares_are_nearest(freqs: Seq<i32>, i: int)
    requires
        tables::sum_of(freqs, 63) >= 1,
        0 <= i,
    ensures
        ({
            let total = tables::sum_of(freqs, 63);
            let share = 255 * tables::sum_of(freqs, i + 1);
            let e = tables::z_cdf_entry(freqs, i);
            &&& e * total <= share + total / 2 < e * total + total
            &&& tables::sum_of(freqs, i + 1) == tables::sum_of(freqs, i) + freqs[i]
            &&& tables::sum_of(freqs, 0) == 0
        }),
{
    let total = tables::sum_of(freqs, 63);
    let a = tables::sum_of(freqs, i + 1) * 255 + total / 2;
    div_mod::lemma_fundamental_div_mod(a, total);
    div_mod::lemma_mod_bound(a, total);
    let e = a / total;
    assert(total * e == e * total) by (nonlinear_arith);
}

/// The end of a thread's data is its highest set bit.
pub proof fn law_highest_bit_ends_the_data(data: Seq<bool>, from: int, to: int)
    requires
        0 <= from <= to <= data.len(),
    ensures
        ({
            let m = decoder::last_set(data, from, to);
            &&& m == -1 || (from <= m < to && data[m])
            &&& forall|i: int| from <= i < to && m < i ==> !#[trigger] data[i]
        }),
    decreases to - from,
{
    if from < to && !data[to - 1] {
        law_highest_bit_ends_the_data(data, from, to - 1);
    }
}

/// A thread's bytes are its bits, its final states, a set bit, and zeros up to a whole byte; two
/// states take a byte each, the first above the second.
pub proof fn law_threads_are_sealed(w: Writer, two_states: bool)
    ensures
        ({
            let s = w.sealed(two_states);
            let states = if two_states {
                16int
            } else {
                8
            };
            let end = w.bits.len() + states;
            &&& s.len() % 8 == 0
            &&& end < s.len() <= end + 8
            &&& s.take(w.bits.len() as int) == w.bits
            &&& s[end]
            &&& forall|i: int| end < i < s.len() ==> !#[trigger] s[i]
            &&& !two_states ==> s.subrange(w.bits.len() as int, end) == stack::digits(
                w.state1 as nat,
                8,
            )
            &&& two_states ==> s.subrange(w.bits.len() as int, end) == stack::digits(
                w.state2 as nat,
                8,
            ) + stack::digits(w.state1 as nat, 8)
        }),
{
    power2::lemma2_to64();
    let s = w.sealed(two_states);
    let t = w.terminated(two_states);
    let at = w.bits.len() as int;
    assert(s.take(at) =~= w.bits);
    let fill = ((8 - t.len() % 8) % 8) as nat;
    assert forall|i: int| t.len() <= i < s.len() implies !#[trigger] s[i] by {
        let k = i - t.len();
        assert(s[i] == stack::digits(0, fill)[k]);
        power2::lemma_pow2_pos(k as nat);
        assert(0nat / power2::pow2(k as nat) == 0) by {
            div_mod::lemma_div_basics_1(power2::pow2(k as nat) as int);
        }
    }
    if two_states {
        let v = (65536 + w.state1 * 256 + w.state2) as nat;
        let d = stack::digits(v, 17);
        assert(s[at + 16] == d[16]);
        assert(v / 65536 % 2 == 1);
        let (lo, hi) = (stack::digits(w.state2 as nat, 8), stack::digits(w.state1 as nat, 8));
        assert forall|i: int| 0 <= i < 16 implies #[trigger] s.subrange(at, at + 16)[i] == (lo
            + hi)[i] by {
            assert(s.subrange(at, at + 16)[i] == d[i]);
            lemma_digit(w.state1, w.state2, i);
        }
        assert(s.subrange(at, at + 16) =~= lo + hi);
    } else {
        let v = (256 + w.state1) as nat;
        let d = stack::digits(v, 9);
        assert(s[at + 8] == d[8]);
        assert(v / 256 % 2 == 1);
        let lo = stack::digits(w.state1 as nat, 8);
        assert forall|i: int| 0 <= i < 8 implies #[trigger] s.subrange(at, at + 8)[i] == lo[i] by {
            assert(s.subrange(at, at + 8)[i] == d[i]);
            lemma_low_digit(1, w.state1, i);
        }
        assert(s.subrange(at, at + 8) =~= lo);
    }
}

/// The low eight digits do not see what stands above them.
proof fn lemma_low_digit(above: int, low: u8, i: int)
    requires
        0 <= i < 8,
        0 <= above,
    ensures
        ((above * 256 + low) as nat / power2::pow2(i as nat)) % 2 == (low as nat / power2::pow2(
            i as nat,
        )) % 2,
{
    power2::lemma2_to64();
    let x = (above * 256 + low) as nat;
    assert(power2::pow2(8) == 256);
    assert(x % 256 == low as nat);
    bits::lemma_bit_of_mod(x, i as nat, 8);
}

/// The digits of the terminator of two states.
proof fn lemma_digit(hi: u8, lo: u8, i: int)
    requires
        0 <= i < 16,
    ensures
        ({
            let v = (65536 + hi * 256 + lo) as nat;
            let d = (v / power2::pow2(i as nat)) % 2 == 1;
            &&& i < 8 ==> d == ((lo as nat / power2::pow2(i as nat)) % 2 == 1)
            &&& i >= 8 ==> d == ((hi as nat / power2::pow2((i - 8) as nat)) % 2 == 1)
        }),
{
    power2::lemma2_to64();
    let v = 65536 + hi * 256 + lo;
    if i < 8 {
        assert(v == (256 + hi) * 256 + lo);
        lemma_low_digit(256 + hi, lo, i);
    } else {
        let j = (i - 8) as nat;
        power2::lemma_pow2_adds(8, j);
        power2::lemma_pow2_pos(j);
        div_mod::lemma_div_denominator(v as int, 256, power2::pow2(j) as int);
        assert(v / 256 == 256 + hi);
        lemma_low_digit(1, hi, i - 8);
    }
}

/// A refill changes nothing while 56 bits are unread, and otherwise marks the thread.
pub proof fn law_refills_find_exhausted_threads(r: Reader)
    ensures
        r.pos >= 56 ==> r.refill() == r,
        r.pos < 56 ==> r.refill().failed,
        r.refill().state1 == r.state1 && r.refill().state2 == r.state2,
        r.failed ==> r.refill().failed,
{
}

/// A state of the hyper-latent decoder gives the symbol whose mass it lies in, and the last state the
/// escape.
pub proof fn law_hyper_states_give_their_symbol(cdf: Seq<u8>, s: int, sym: int)
    requires
        cdf.len() == 63,
        tables::z_monotone(cdf),
        0 <= sym < 63,
        tables::z_start(cdf, sym) <= s < cdf[sym],
        tables::z_owner(cdf, s, 0) == sym,
    ensures
        tables::z_decode_table(cdf).len() == 256,
        tables::z_decode_table(cdf)[255] as int % 0x1_0000 == 63,
        tables::z_decode_table(cdf)[s] as int % 0x1_0000 == sym,
{
    reveal(tables::z_decode_table);
    law_entries_normalize(1, 63);
    law_entries_normalize((tables::z_mass(cdf, sym) + (s - tables::z_start(cdf, sym))) as nat, sym);
}

/// A decoder's buffer is the data of its threads behind eight zero bytes.
pub proof fn law_data_stand_behind_the_padding(threads: Seq<Seq<u8>>, i: int)
    ensures
        ({
            let b = decoder::padded(threads);
            let data = crate::container::flat(threads);
            &&& b.len() == 8 + data.len()
            &&& 0 <= i < 8 ==> b[i] == 0
            &&& 0 <= i < data.len() ==> b[8 + i] == data[i]
        }),
{
}

/// Tables of masses are valid if and only if there are 32 distributions, each with an escape bound
/// that a column stands for and a mass of 256 in all.
pub proof fn law_valid_masses(pdf: &PdfTables)
    ensures
        pdf.wf() <==> {
            &&& pdf.rows@.len() == 32 && pdf.bounds@.len() == 32
            &&& forall|d: int| 0 <= d < 32 ==> 1 <= #[trigger] pdf.bounds@[d] <= 128
            &&& forall|d: int| 0 <= d < 32 ==> tables::mass(#[trigger] pdf.pmf(d), 256) == 256
        },
{
    if forall|d: int| 0 <= d < 32 ==> tables::mass(#[trigger] pdf.pmf(d), 256) == 256 {
        assert forall|d: int| 0 <= d < 32 implies tables::is_pmf(#[trigger] pdf.pmf(d)) by {
            assert(tables::mass(pdf.pmf(d), 256) == 256);
        }
    }
}

/// A hyper-latent CDF can be used if and only if no entry lies below the one before it.
pub proof fn law_usable_shares(cdf: Seq<u8>)
    requires
        cdf.len() == 63,
    ensures
        tables::z_monotone(cdf) <==> forall|i: int, j: int|
            0 <= i < j < 63 ==> #[trigger] cdf[i] <= #[trigger] cdf[j],
{
    if tables::z_monotone(cdf) {
        assert forall|i: int, j: int| 0 <= i < j < 63 implies #[trigger] cdf[i] <= #[trigger] cdf[j] by {
            lemma_shares_rise(cdf, i, j);
        }
    }
}

proof fn lemma_shares_rise(cdf: Seq<u8>, i: int, j: int)
    requires
        cdf.len() == 63,
        tables::z_monotone(cdf),
        0 <= i <= j < 63,
    ensures
        cdf[i] <= cdf[j],
    decreases j - i,
{
    if i < j {
        lemma_shares_rise(cdf, i, j - 1);
        assert(tables::z_start(cdf, j) <= cdf[j]);
    }
}

/// A hyper-latent symbol that is escaped takes six bits on top, which are read back as they are; any
/// other takes none.
pub proof fn law_hyper_escapes_take_six_bits(call: PutZCall, w: Writer, value: u8)
    requires
        value < 64,
    ensures
        ({
            let after = call.put_outbound(w, value).bits;
            &&& call.escapes(value) ==> after == w.bits + stack::digits(value as nat, 6)
            &&& !call.escapes(value) ==> after == w.bits
            &&& call.escapes(63)
        }),
{
    reveal(PutZCall::put_outbound);
}

/// Behind an escape the six bits on top are the symbol.
pub proof fn law_hyper_escapes_are_read(call: ZCall, r: Reader, row: Seq<u8>, i: int)
    requires
        0 <= i < row.len(),
    ensures
        ({
            let m = call.outbound((r, row), i);
            &&& row[i] == 63 ==> m.0.pos == r.pos - 6 && m.1 == row.update(i, r.next(6) as u8)
            &&& row[i] != 63 ==> m.0 == r && m.1 == row
        }),
{
    reveal(ZCall::outbound);
}

} // verus!
