//! The order in which the symbols of one call are coded.
//!
//! Symbols go in groups of four with one window refill per group; what is left over goes one by
//! one. The decoder follows the order from the front, the encoder from the back. The grouping is
//! part of the bitstream format.

use vstd::prelude::*;
use vstd::arithmetic::div_mod;

verus! {

/// One step of the order.
pub enum Step {
    /// The four symbols `at`, `at + by`, `at + 2 by`, `at + 3 by`.
    Group { at: int, by: int },
    /// One symbol.
    One(int),
    /// A refill of the decoder's window.
    Refill,
}

/// Groups of four from `first` on, every `by`-th symbol.
pub open spec fn groups(count: int, first: int, by: int) -> Seq<Step> {
    Seq::new(count as nat, |g: int| Step::Group { at: first + 4 * by * g, by })
}

/// Groups of four with a refill behind each.
pub open spec fn refilled_groups(count: int, first: int, by: int) -> Seq<Step> {
    Seq::new(
        (2 * count) as nat,
        |j: int|
            if j % 2 == 0 {
                Step::Group { at: first + 4 * by * (j / 2), by }
            } else {
                Step::Refill
            },
    )
}

/// Single symbols from `first` on, every `by`-th symbol.
pub open spec fn ones(count: int, first: int, by: int) -> Seq<Step> {
    Seq::new(count as nat, |j: int| Step::One(first + by * j))
}

/// Single symbols with a refill behind each.
pub open spec fn refilled_ones(count: int, first: int, by: int) -> Seq<Step> {
    Seq::new(
        (2 * count) as nat,
        |j: int|
            if j % 2 == 0 {
                Step::One(first + by * (j / 2))
            } else {
                Step::Refill
            },
    )
}

/// Number of symbols `first`, `first + by`, ... below `len`.
pub open spec fn count_from(len: int, first: int, by: int) -> int {
    if first >= len {
        0
    } else {
        (len - first + by - 1) / by
    }
}

/// The residual symbols of a single thread that are left over behind the groups.
pub open spec fn residual_tail(len: int) -> Seq<Step> {
    let at = len / 4 * 4;
    if len % 4 == 0 {
        Seq::empty()
    } else if len % 4 == 1 {
        seq![Step::One(at), Step::Refill]
    } else if len % 4 == 2 {
        seq![Step::One(at), Step::One(at + 1), Step::Refill]
    } else {
        seq![Step::One(at), Step::One(at + 1), Step::Refill, Step::One(at + 2), Step::Refill]
    }
}

/// The order of `len` residual symbols on thread `first` of `n`.
pub open spec fn residual_order(len: int, first: int, n: int) -> Seq<Step> {
    if n == 1 {
        groups(len / 4, 0, 1) + residual_tail(len)
    } else {
        let done = len / (4 * n) * (4 * n) + first;
        groups(len / (4 * n), first, n) + refilled_ones(count_from(len, done, n), done, n)
    }
}

/// The order of a row of `len` hyper-latent symbols on thread `first` of `n`.
pub open spec fn z_order(len: int, first: int, n: int) -> Seq<Step> {
    let done = len / (4 * n) * (4 * n) + first;
    refilled_groups(len / (4 * n), first, n) + ones(count_from(len, done, n), done, n)
        + seq![Step::Refill]
}

/// Every symbol of a group of a thread lies within the call.
pub proof fn lemma_group_within(len: int, n: int, first: int, g: int)
    requires
        0 <= len,
        n >= 1,
        0 <= first < n,
        0 <= g < len / (4 * n),
    ensures
        0 <= first + 4 * n * g,
        first + 4 * n * g + 3 * n < len,
        4 * n * g < len,
{
    div_mod::lemma_fundamental_div_mod(len, 4 * n);
    let q = len / (4 * n);
    assert(4 * n * g + 4 * n <= 4 * n * q) by (nonlinear_arith)
        requires
            g + 1 <= q,
            n >= 1,
    ;
    assert(4 * n * g >= 0) by (nonlinear_arith)
        requires
            g >= 0,
            n >= 1,
    ;
}

/// Where the groups of a thread end.
pub proof fn lemma_groups_end(len: int, n: int, first: int)
    requires
        0 <= len,
        n >= 1,
        0 <= first < n,
    ensures
        0 <= len / (4 * n) * (4 * n) <= len,
        len - len / (4 * n) * (4 * n) < 4 * n,
{
    div_mod::lemma_fundamental_div_mod(len, 4 * n);
    div_mod::lemma_mod_bound(len, 4 * n);
    let q = len / (4 * n);
    assert(q * (4 * n) == (4 * n) * q) by (nonlinear_arith);
    assert(q >= 0) by {
        div_mod::lemma_div_pos_is_pos(len, 4 * n);
    }
    assert(q * (4 * n) >= 0) by (nonlinear_arith)
        requires
            q >= 0,
            n >= 1,
    ;
}

/// The symbols `first`, `first + by`, ... below `len` are those with an index below their number.
pub proof fn lemma_count_from(len: int, first: int, by: int, j: int)
    requires
        0 <= first < len,
        by >= 1,
        0 <= j,
    ensures
        first + by * j < len <==> j < count_from(len, first, by),
        count_from(len, first, by) >= 1,
{
    let a = len - first;
    let c = (a + by - 1) / by;
    div_mod::lemma_fundamental_div_mod(a + by - 1, by);
    div_mod::lemma_mod_bound(a + by - 1, by);
    let r = (a + by - 1) % by;
    if j < c {
        assert(by * j < a) by (nonlinear_arith)
            requires
                j + 1 <= c,
                a + by - 1 == by * c + r,
                0 <= r,
                by >= 1,
        ;
    } else {
        assert(by * j >= a) by (nonlinear_arith)
            requires
                j >= c,
                a + by - 1 == by * c + r,
                r < by,
                by >= 1,
        ;
    }
    assert(c >= 1) by (nonlinear_arith)
        requires
            a + by - 1 == by * c + r,
            r < by,
            a >= 1,
            by >= 1,
    ;
}

} // verus!
