//! The winning EFE linear filters as a coded set: every weight is written as its distance from the
//! smallest one.

use vstd::prelude::*;

use crate::error::{Error, Result};
use crate::header::tools;
use crate::header::tools::{EfeLinearView, EfePlaneView, EfeSetView};
use crate::header::{EfeLinearHeader, EfeLinearSet, EFE_LINEAR_SPLITS};

verus! {

/// One chroma plane's winning filters, as 16-bit codes.
#[derive(Clone, Debug)]
pub struct PlaneDecision {
    /// Split candidate.
    pub cand: usize,
    /// Filter side length.
    pub filter_len: usize,
    /// Per split: `4 * fL * fL` chroma codes, or `fL * fL` when coded at full chroma resolution.
    pub chroma: Vec<Vec<u32>>,
    /// Per split: `fL * fL` luma codes.
    pub luma: Vec<Vec<u32>>,
}

/// Every code has 16 bits.
pub open spec fn codes_fit(lists: Seq<Vec<u32>>) -> bool {
    forall|i: int, j: int|
        0 <= i < lists.len() && 0 <= j < lists[i]@.len() ==> #[trigger] lists[i]@[j] <= 0xffff
}

impl PlaneDecision {
    /// The candidate has splits, the length fits its field, and every code has 16 bits.
    pub open spec fn wf(&self) -> bool {
        &&& self.cand < 8
        &&& self.filter_len <= 255
        &&& codes_fit(self.chroma@)
        &&& codes_fit(self.luma@)
    }
}

/// The smallest and the largest code of a list, with those that are there already.
pub open spec fn list_range(s: Seq<u32>, n: int, r: (u32, u32)) -> (u32, u32)
    decreases n,
{
    if n <= 0 {
        r
    } else {
        let (lo, hi) = list_range(s, n - 1, r);
        let c = s[n - 1];
        (
            if c < lo {
                c
            } else {
                lo
            },
            if c > hi {
                c
            } else {
                hi
            },
        )
    }
}

/// The same for several lists.
pub open spec fn lists_range(s: Seq<Vec<u32>>, n: int, r: (u32, u32)) -> (u32, u32)
    decreases n,
{
    if n <= 0 {
        r
    } else {
        list_range(s[n - 1]@, s[n - 1]@.len() as int, lists_range(s, n - 1, r))
    }
}

/// The same for the filters of a plane.
pub open spec fn plane_range(d: PlaneDecision, r: (u32, u32)) -> (u32, u32) {
    lists_range(
        d.luma@,
        d.luma@.len() as int,
        lists_range(d.chroma@, d.chroma@.len() as int, r),
    )
}

/// The smallest and the largest code of both planes.
pub open spec fn code_range(u: PlaneDecision, v: PlaneDecision) -> (u32, u32) {
    plane_range(v, plane_range(u, (0xffffu32, 0u32)))
}

fn range_of(s: &Vec<u32>, r: (u32, u32)) -> (out: (u32, u32))
    ensures
        out == list_range(s@, s@.len() as int, r),
{
    let (mut lo, mut hi): (u32, u32) = r;
    let mut i: usize = 0;
    while i < s.len()
        invariant
            i <= s@.len(),
            (lo, hi) == list_range(s@, i as int, r),
        decreases s@.len() - i,
    {
        let c: u32 = s[i];
        if c < lo {
            lo = c;
        }
        if c > hi {
            hi = c;
        }
        i = i + 1;
    }
    (lo, hi)
}

fn range_of_lists(s: &Vec<Vec<u32>>, r: (u32, u32)) -> (out: (u32, u32))
    ensures
        out == lists_range(s@, s@.len() as int, r),
{
    let mut out: (u32, u32) = r;
    let mut i: usize = 0;
    while i < s.len()
        invariant
            i <= s@.len(),
            out == lists_range(s@, i as int, r),
        decreases s@.len() - i,
    {
        out = range_of(&s[i], out);
        i = i + 1;
    }
    out
}

/// A range only grows, and holds what it was made of.
proof fn lemma_list_range(s: Seq<u32>, n: int, r: (u32, u32))
    requires
        0 <= n <= s.len(),
    ensures
        list_range(s, n, r).0 <= r.0,
        list_range(s, n, r).1 >= r.1,
        forall|i: int|
            0 <= i < n ==> list_range(s, n, r).0 <= #[trigger] s[i] <= list_range(s, n, r).1,
        (r.0 <= 0xffff && r.1 <= 0xffff && forall|i: int| 0 <= i < n ==> #[trigger] s[i] <= 0xffff)
            ==> list_range(s, n, r).0 <= 0xffff && list_range(s, n, r).1 <= 0xffff,
    decreases n,
{
    if n > 0 {
        lemma_list_range(s, n - 1, r);
    }
}

/// The same for several lists.
proof fn lemma_lists_range(s: Seq<Vec<u32>>, n: int, r: (u32, u32))
    requires
        0 <= n <= s.len(),
        codes_fit(s),
        r.0 <= 0xffff,
        r.1 <= 0xffff,
    ensures
        lists_range(s, n, r).0 <= r.0,
        lists_range(s, n, r).1 >= r.1,
        lists_range(s, n, r).1 <= 0xffff,
        forall|i: int, j: int|
            0 <= i < n && 0 <= j < s[i]@.len() ==> lists_range(s, n, r).0 <= #[trigger] s[i]@[j]
                <= lists_range(s, n, r).1,
    decreases n,
{
    if n > 0 {
        lemma_lists_range(s, n - 1, r);
        let l = s[n - 1]@;
        assert forall|j: int| 0 <= j < l.len() implies #[trigger] l[j] <= 0xffff by {
            assert(s[n - 1]@[j] <= 0xffff);
        }
        lemma_list_range(l, l.len() as int, lists_range(s, n - 1, r));
    }
}

/// No code lies outside the range of both planes.
pub proof fn lemma_code_range(u: PlaneDecision, v: PlaneDecision)
    requires
        u.wf(),
        v.wf(),
    ensures
        code_range(u, v).0 <= 0xffff,
        code_range(u, v).1 <= 0xffff,
        at_least(u, code_range(u, v).0),
        at_least(v, code_range(u, v).0),
        at_most(u, code_range(u, v).1),
        at_most(v, code_range(u, v).1),
{
    let r0 = (0xffffu32, 0u32);
    let r1 = lists_range(u.chroma@, u.chroma@.len() as int, r0);
    let r2 = lists_range(u.luma@, u.luma@.len() as int, r1);
    let r3 = lists_range(v.chroma@, v.chroma@.len() as int, r2);
    lemma_lists_range(u.chroma@, u.chroma@.len() as int, r0);
    lemma_lists_range(u.luma@, u.luma@.len() as int, r1);
    lemma_lists_range(v.chroma@, v.chroma@.len() as int, r2);
    lemma_lists_range(v.luma@, v.luma@.len() as int, r3);
}

/// No code of a plane lies below a number.
pub open spec fn at_least(d: PlaneDecision, min: u32) -> bool {
    &&& forall|i: int, j: int|
        0 <= i < d.chroma@.len() && 0 <= j < d.chroma@[i]@.len() ==> min
            <= #[trigger] d.chroma@[i]@[j]
    &&& forall|i: int, j: int|
        0 <= i < d.luma@.len() && 0 <= j < d.luma@[i]@.len() ==> min <= #[trigger] d.luma@[i]@[j]
}

/// No code of a plane lies above a number.
pub open spec fn at_most(d: PlaneDecision, max: u32) -> bool {
    &&& forall|i: int, j: int|
        0 <= i < d.chroma@.len() && 0 <= j < d.chroma@[i]@.len() ==> #[trigger] d.chroma@[i]@[j]
            <= max
    &&& forall|i: int, j: int|
        0 <= i < d.luma@.len() && 0 <= j < d.luma@[i]@.len() ==> #[trigger] d.luma@[i]@[j] <= max
}

/// Codes as their distance from the smallest.
pub open spec fn lowered(s: Seq<u32>, min: u32) -> Seq<u32> {
    Seq::new(s.len(), |i: int| (s[i] - min) as u32)
}

/// The same for several lists.
pub open spec fn lowered_lists(s: Seq<Vec<u32>>, min: u32) -> Seq<Seq<u32>> {
    Seq::new(s.len(), |i: int| lowered(s[i]@, min))
}

/// A list of a plane has the wrong size.
pub open spec fn misfit(s: Seq<Vec<u32>>, size: int) -> bool {
    exists|i: int| 0 <= i < s.len() && (#[trigger] s[i])@.len() != size
}

/// Why a plane's filters cannot be written.
pub open spec fn plane_error(d: PlaneDecision, coded_444: bool) -> Option<Error> {
    let taps = d.filter_len * d.filter_len;
    if d.chroma@.len() != EFE_LINEAR_SPLITS@[d.cand as int] || d.luma@.len() != d.chroma@.len() {
        Some(Error::InvalidData("EFE linear: filter count"))
    } else if misfit(
        d.chroma@,
        if coded_444 {
            taps
        } else {
            4 * taps
        },
    ) {
        Some(Error::InvalidData("EFE linear: chroma filter size"))
    } else if misfit(d.luma@, taps) {
        Some(Error::InvalidData("EFE linear: luma filter size"))
    } else {
        None
    }
}

/// A plane of a set holds these filters.
pub open spec fn written(d: PlaneDecision, min: u32) -> EfePlaneView {
    EfePlaneView {
        cand: Some(d.cand as u8),
        filter_len: d.filter_len as u8,
        chroma_weights: lowered_lists(d.chroma@, min),
        luma_weights: lowered_lists(d.luma@, min),
    }
}

fn lower(s: &Vec<u32>, min: u32) -> (out: Vec<u32>)
    requires
        forall|i: int| 0 <= i < s@.len() ==> min <= #[trigger] s@[i],
    ensures
        out@ == lowered(s@, min),
{
    let mut out: Vec<u32> = Vec::new();
    while out.len() < s.len()
        invariant
            out@.len() <= s@.len(),
            forall|i: int| 0 <= i < s@.len() ==> min <= #[trigger] s@[i],
            out@ == lowered(s@, min).take(out@.len() as int),
        decreases s@.len() - out@.len(),
    {
        let i: usize = out.len();
        let c: u32 = s[i] - min;
        proof {
            let want = lowered(s@, min);
            assert(want.take(i + 1) =~= want.take(i as int).push(c));
        }
        out.push(c);
    }
    proof {
        assert(lowered(s@, min).take(s@.len() as int) =~= lowered(s@, min));
    }
    out
}

/// The lists of a plane, lowered, where each has the size that it should have.
fn lower_lists(s: &Vec<Vec<u32>>, min: u32, size: usize) -> (out: Option<Vec<Vec<u32>>>)
    requires
        forall|i: int, j: int|
            0 <= i < s@.len() && 0 <= j < s@[i]@.len() ==> min <= #[trigger] s@[i]@[j],
    ensures
        match out {
            Some(v) => !misfit(s@, size as int) && tools::lists(v@) == lowered_lists(s@, min),
            None => misfit(s@, size as int),
        },
{
    let mut out: Vec<Vec<u32>> = Vec::new();
    while out.len() < s.len()
        invariant
            out@.len() <= s@.len(),
            forall|i: int, j: int|
                0 <= i < s@.len() && 0 <= j < s@[i]@.len() ==> min <= #[trigger] s@[i]@[j],
            forall|i: int| 0 <= i < out@.len() ==> (#[trigger] s@[i])@.len() == size,
            forall|i: int| 0 <= i < out@.len() ==> (#[trigger] out@[i])@ == lowered(s@[i]@, min),
        decreases s@.len() - out@.len(),
    {
        let i: usize = out.len();
        if s[i].len() != size {
            proof {
                assert(s@[i as int]@.len() != size);
            }
            return None;
        }
        proof {
            assert forall|j: int| 0 <= j < s@[i as int]@.len() implies min
                <= #[trigger] s@[i as int]@[j] by {
            }
        }
        let l: Vec<u32> = lower(&s[i], min);
        out.push(l);
    }
    proof {
        assert(tools::lists(out@) =~= lowered_lists(s@, min));
    }
    Some(out)
}

/// The lists of a plane as a set carries them.
fn write_plane(d: &PlaneDecision, min: u32, coded_444: bool) -> (r: Result<
    (Vec<Vec<u32>>, Vec<Vec<u32>>),
>)
    requires
        d.wf(),
        at_least(*d, min),
    ensures
        match plane_error(*d, coded_444) {
            Some(e) => r == Err::<(Vec<Vec<u32>>, Vec<Vec<u32>>), Error>(e),
            None => r matches Ok(w) && tools::lists(w.0@) == lowered_lists(d.chroma@, min)
                && tools::lists(w.1@) == lowered_lists(d.luma@, min),
        },
{
    if d.chroma.len() != EFE_LINEAR_SPLITS[d.cand] || d.luma.len() != d.chroma.len() {
        return Err(Error::InvalidData("EFE linear: filter count"));
    }
    proof {
        assert(0 <= d.filter_len * d.filter_len <= 65025) by (nonlinear_arith)
            requires
                0 <= d.filter_len <= 255,
        ;
    }
    let taps: usize = d.filter_len * d.filter_len;
    let chroma: Vec<Vec<u32>> = match lower_lists(
        &d.chroma,
        min,
        if coded_444 {
            taps
        } else {
            4 * taps
        },
    ) {
        Some(v) => v,
        None => {
            return Err(Error::InvalidData("EFE linear: chroma filter size"));
        },
    };
    let luma: Vec<Vec<u32>> = match lower_lists(&d.luma, min, taps) {
        Some(v) => v,
        None => {
            return Err(Error::InvalidData("EFE linear: luma filter size"));
        },
    };
    Ok((chroma, luma))
}

/// The coded set of both planes' filters: the smallest code, how far the largest lies from it, and
/// every weight as its distance from the smallest.
pub fn assemble_set(u: &PlaneDecision, v: &PlaneDecision, coded_444: bool) -> (r: Result<EfeLinearSet>)
    requires
        u.wf(),
        v.wf(),
    ensures
        ({
            let (min, max) = code_range(*u, *v);
            match plane_error(*u, coded_444) {
                Some(e) => r == Err::<EfeLinearSet, Error>(e),
                None => match plane_error(*v, coded_444) {
                    Some(e) => r == Err::<EfeLinearSet, Error>(e),
                    None => r matches Ok(set) && set.plane(0) == written(*u, min) && set.plane(1)
                        == written(*v, min) && set.min_symbol == min && set.max_symbol == if max
                        >= min {
                        max - min
                    } else {
                        min - max
                    },
                },
            }
        }),
{
    let start: (u32, u32) = (0xffff, 0);
    let a: (u32, u32) = range_of_lists(&u.luma, range_of_lists(&u.chroma, start));
    let (min, max): (u32, u32) = range_of_lists(&v.luma, range_of_lists(&v.chroma, a));
    proof {
        lemma_code_range(*u, *v);
    }
    let (cu, lu): (Vec<Vec<u32>>, Vec<Vec<u32>>) = write_plane(u, min, coded_444)?;
    let (cv, lv): (Vec<Vec<u32>>, Vec<Vec<u32>>) = write_plane(v, min, coded_444)?;
    let span: u32 = if max >= min { max - min } else { min - max };
    Ok(
        EfeLinearSet {
            cand: [Some(u.cand as u8), Some(v.cand as u8)],
            filter_len: [u.filter_len as u8, v.filter_len as u8],
            min_symbol: min as u16,
            max_symbol: span as u16,
            chroma_weights: [cu, cv],
            luma_weights: [lu, lv],
        },
    )
}

/// The set without filters that a stream carries where nothing was searched.
pub fn empty_set(min_symbol: u16) -> (set: EfeLinearSet)
    ensures
        set.plane(0) == tools::no_filters(),
        set.plane(1) == tools::no_filters(),
        set.min_symbol == min_symbol,
        set.max_symbol == u16::MAX,
{
    let mut set = EfeLinearSet::default();
    set.min_symbol = min_symbol;
    set.max_symbol = 65535;
    set
}

/// A decoder that adds the smallest code to a weight has the weight's code again, whatever the
/// plane and the filter.
pub proof fn law_codes_come_back(u: PlaneDecision, v: PlaneDecision, split: int, k: int)
    requires
        u.wf(),
        v.wf(),
    ensures
        ({
            let (min, _) = code_range(u, v);
            &&& 0 <= split < u.chroma@.len() && 0 <= k < u.chroma@[split]@.len() ==> written(
                u,
                min,
            ).chroma_weights[split][k] + min == u.chroma@[split]@[k]
            &&& 0 <= split < u.luma@.len() && 0 <= k < u.luma@[split]@.len() ==> written(
                u,
                min,
            ).luma_weights[split][k] + min == u.luma@[split]@[k]
            &&& 0 <= split < v.chroma@.len() && 0 <= k < v.chroma@[split]@.len() ==> written(
                v,
                min,
            ).chroma_weights[split][k] + min == v.chroma@[split]@[k]
            &&& 0 <= split < v.luma@.len() && 0 <= k < v.luma@[split]@.len() ==> written(
                v,
                min,
            ).luma_weights[split][k] + min == v.luma@[split]@[k]
        }),
{
    lemma_code_range(u, v);
}

/// Both planes' filters as a set whose weights are the codes themselves.
pub open spec fn spec_raw_set(u: PlaneDecision, v: PlaneDecision) -> EfeSetView {
    EfeSetView {
        first: written(u, 0),
        second: written(v, 0),
        min_symbol: 0,
        max_symbol: u16::MAX,
    }
}

proof fn lemma_raw_lists(s: Seq<Vec<u32>>)
    ensures
        tools::lists(s) == lowered_lists(s, 0),
{
    assert forall|i: int| 0 <= i < s.len() implies tools::lists(s)[i] == #[trigger] lowered_lists(
        s,
        0,
    )[i] by {
        assert(s[i]@ =~= lowered(s[i]@, 0));
    }
    assert(tools::lists(s) =~= lowered_lists(s, 0));
}

/// A set whose weights are the codes themselves.
pub fn raw_set(u: PlaneDecision, v: PlaneDecision) -> (set: EfeLinearSet)
    requires
        u.wf(),
        v.wf(),
    ensures
        set@ == spec_raw_set(u, v),
{
    proof {
        lemma_raw_lists(u.chroma@);
        lemma_raw_lists(u.luma@);
        lemma_raw_lists(v.chroma@);
        lemma_raw_lists(v.luma@);
    }
    EfeLinearSet {
        cand: [Some(u.cand as u8), Some(v.cand as u8)],
        filter_len: [u.filter_len as u8, v.filter_len as u8],
        min_symbol: 0,
        max_symbol: 65535,
        chroma_weights: [u.chroma, v.chroma],
        luma_weights: [u.luma, v.luma],
    }
}

/// A set without filters.
pub open spec fn spec_no_set(min_symbol: u16) -> EfeSetView {
    EfeSetView {
        first: tools::no_filters(),
        second: tools::no_filters(),
        min_symbol,
        max_symbol: u16::MAX,
    }
}

/// Both planes' filters as a coded set.
pub open spec fn spec_set(u: PlaneDecision, v: PlaneDecision) -> EfeSetView {
    let (min, max) = code_range(u, v);
    EfeSetView {
        first: written(u, min),
        second: written(v, min),
        min_symbol: min as u16,
        max_symbol: (if max >= min {
            max - min
        } else {
            min - max
        }) as u16,
    }
}

/// The header of a search that found `u` and `v`, and the filters of the alternative picture if
/// one was searched.
pub open spec fn spec_filter_header(
    mean: (u16, u16),
    alternative: Option<(PlaneDecision, PlaneDecision)>,
    u: PlaneDecision,
    v: PlaneDecision,
) -> EfeLinearView {
    EfeLinearView {
        mean,
        upsample_set: match alternative {
            Some((a, b)) => spec_raw_set(a, b),
            None => spec_no_set(0),
        },
        set: spec_set(u, v),
    }
}

/// The header of a search that signals no weights.
pub open spec fn spec_bare_header() -> EfeLinearView {
    EfeLinearView { mean: (0, 0), upsample_set: spec_no_set(0), set: spec_no_set(u16::MAX) }
}

/// The header that a search makes: the alternative picture's filters go first, as raw codes. A
/// search for the interpolation alone signals neither means nor weights.
pub fn filter_header(
    dctif_only: bool,
    mean: [u16; 2],
    alternative: Option<(PlaneDecision, PlaneDecision)>,
    u: &PlaneDecision,
    v: &PlaneDecision,
    coded_444: bool,
) -> (r: Result<EfeLinearHeader>)
    requires
        u.wf(),
        v.wf(),
        alternative matches Some(a) ==> a.0.wf() && a.1.wf(),
    ensures
        if dctif_only {
            r matches Ok(h) && h@ == spec_bare_header()
        } else {
            match plane_error(*u, coded_444) {
                Some(e) => r == Err::<EfeLinearHeader, Error>(e),
                None => match plane_error(*v, coded_444) {
                    Some(e) => r == Err::<EfeLinearHeader, Error>(e),
                    None => r matches Ok(h) && h@ == spec_filter_header(
                        (mean@[0], mean@[1]),
                        alternative,
                        *u,
                        *v,
                    ),
                },
            }
        },
{
    if dctif_only {
        return Ok(
            EfeLinearHeader {
                mean: [0, 0],
                upsample_set: empty_set(0),
                set: empty_set(65535),
            },
        );
    }
    let set: EfeLinearSet = assemble_set(u, v, coded_444)?;
    let upsample_set: EfeLinearSet = match alternative {
        Some((a, b)) => raw_set(a, b),
        None => empty_set(0),
    };
    Ok(EfeLinearHeader { mean, upsample_set, set })
}

proof fn lemma_written_codable(d: PlaneDecision, coded_444: bool, min: u32, max: u32, span: nat)
    requires
        d.wf(),
        1 <= d.filter_len <= 4,
        plane_error(d, coded_444) is None,
        at_least(d, min),
        at_most(d, max),
        max <= min + span,
    ensures
        tools::plane_error(written(d, min), coded_444, span) is None,
        tools::plane_codable(written(d, min)),
{
    let w = written(d, min);
    let taps = d.filter_len * d.filter_len;
    let size = if coded_444 {
        taps
    } else {
        4 * taps
    };
    assert(w.filter_len * w.filter_len == taps) by (nonlinear_arith)
        requires
            w.filter_len == d.filter_len,
            taps == d.filter_len * d.filter_len,
    ;
    assert(!misfit(d.chroma@, size) && !misfit(d.luma@, taps));
    assert(EFE_LINEAR_SPLITS@[d.cand as int] == tools::splits_of(d.cand as u8));
    assert forall|i: int| 0 <= i < w.chroma_weights.len() implies (
    #[trigger] w.chroma_weights[i]).len() == size && tools::list_within(w.chroma_weights[i], span) by {
        assert(d.chroma@[i]@.len() == size);
        assert forall|j: int| 0 <= j < w.chroma_weights[i].len() implies #[trigger] w.chroma_weights[i][j]
            <= span by {
            assert(min <= d.chroma@[i]@[j] <= max);
        }
    }
    assert forall|i: int| 0 <= i < w.luma_weights.len() implies (
    #[trigger] w.luma_weights[i]).len() == taps && tools::list_within(w.luma_weights[i], span) by {
        assert(d.luma@[i]@.len() == taps);
        assert forall|j: int| 0 <= j < w.luma_weights[i].len() implies #[trigger] w.luma_weights[i][j]
            <= span by {
            assert(min <= d.luma@[i]@[j] <= max);
        }
    }
}

proof fn lemma_raw_codable(d: PlaneDecision, coded_444: bool)
    requires
        d.wf(),
        1 <= d.filter_len <= 4,
        plane_error(d, coded_444) is None,
    ensures
        tools::plane_error(written(d, 0), coded_444, 0xffff) is None,
        tools::plane_codable(written(d, 0)),
{
    lemma_written_codable(d, coded_444, 0, 0xffff, 0xffff);
}

/// Whatever a search finds, its header can be written and parses to what was written: every weight
/// stays within the range that the set signals.
pub proof fn law_filter_header_is_codable(
    mean: (u16, u16),
    alternative: Option<(PlaneDecision, PlaneDecision)>,
    u: PlaneDecision,
    v: PlaneDecision,
    coded_444: bool,
)
    requires
        u.wf() && 1 <= u.filter_len <= 4 && plane_error(u, coded_444) is None,
        v.wf() && 1 <= v.filter_len <= 4 && plane_error(v, coded_444) is None,
        alternative matches Some(a) ==> {
            &&& a.0.wf() && 1 <= a.0.filter_len <= 4 && plane_error(a.0, coded_444) is None
            &&& a.1.wf() && 1 <= a.1.filter_len <= 4 && plane_error(a.1, coded_444) is None
        },
        mean.0 <= 32767,
        mean.1 <= 32767,
    ensures
        tools::linear_error(spec_filter_header(mean, alternative, u, v), coded_444) is None,
        tools::linear_codable(spec_filter_header(mean, alternative, u, v)),
        tools::linear_error(spec_bare_header(), coded_444) is None,
        tools::linear_codable(spec_bare_header()),
{
    let (min, max) = code_range(u, v);
    let span = spec_set(u, v).max_symbol as nat;
    lemma_code_range(u, v);
    lemma_written_codable(u, coded_444, min, max, span);
    lemma_written_codable(v, coded_444, min, max, span);
    if let Some((a, b)) = alternative {
        lemma_raw_codable(a, coded_444);
        lemma_raw_codable(b, coded_444);
    }
}

} // verus!
