//! EFE linear post-filter, encode side: which filters the search tries, when it stops, and how the
//! winners are written. The least-squares fits and the losses are arithmetic on samples; the
//! search only hears how the losses compare.

use vstd::prelude::*;

use crate::encoder::colour::SourceMeta;
use crate::encoder::tiles;
use crate::error::{Error, Result};
use crate::filters::efe_linear as filters;
use crate::filters::efe_linear::{extent, LinearPlan, SPLITS};
use crate::header::EFE_LINEAR_SPLITS;
use crate::planes::PlaneSize;

verus! {

/// The filter lengths and split candidates of a search, in the order they are tried.
pub open spec fn spec_space(pixels: int, model_id: int, dctif_only: bool) -> (Seq<usize>, Seq<usize>) {
    if dctif_only {
        (seq![1usize], seq![0usize])
    } else if pixels <= 1_000_000 {
        if model_id == 0 {
            (seq![1usize, 2usize], seq![0usize, 1usize, 2usize])
        } else if model_id == 1 {
            (seq![3usize, 4usize], seq![0usize, 1usize, 2usize])
        } else {
            (seq![3usize, 4usize], seq![4usize, 5usize, 6usize, 7usize])
        }
    } else if pixels <= 4_000_000 {
        if model_id == 0 {
            (seq![1usize, 2usize, 3usize], Seq::new(8, |i: int| i as usize))
        } else if model_id == 1 {
            (seq![2usize, 3usize, 4usize], Seq::new(8, |i: int| i as usize))
        } else {
            (seq![3usize, 4usize], seq![4usize, 5usize, 6usize, 7usize])
        }
    } else if pixels <= 9_000_000 {
        if model_id == 0 {
            (seq![1usize, 2usize, 3usize], seq![3usize, 4usize, 5usize, 6usize, 7usize])
        } else if model_id == 1 {
            (seq![3usize, 4usize], seq![3usize, 4usize, 5usize, 6usize, 7usize])
        } else {
            (seq![4usize], seq![6usize, 7usize])
        }
    } else if pixels < 16_000_000 {
        if model_id == 0 {
            (seq![1usize, 2usize, 3usize], seq![5usize, 6usize, 7usize])
        } else if model_id == 1 {
            (seq![4usize], seq![5usize, 6usize, 7usize])
        } else {
            (seq![4usize], seq![6usize, 7usize])
        }
    } else {
        if model_id == 0 {
            (seq![3usize, 4usize], seq![6usize, 7usize])
        } else {
            (seq![4usize], seq![6usize, 7usize])
        }
    }
}

/// The whole numbers `from ..= to`.
fn run(from: usize, to: usize) -> (v: Vec<usize>)
    requires
        from <= to <= 8,
    ensures
        v@ == Seq::new((to - from + 1) as nat, |i: int| (from + i) as usize),
{
    let mut v: Vec<usize> = Vec::new();
    let mut n: usize = from;
    while n <= to
        invariant
            from <= n <= to + 1,
            to <= 8,
            v@ == Seq::new((n - from) as nat, |i: int| (from + i) as usize),
        decreases to + 1 - n,
    {
        proof {
            assert(Seq::new((n + 1 - from) as nat, |i: int| (from + i) as usize) =~= v@.push(n));
        }
        v.push(n);
        n = n + 1;
    }
    v
}

/// The filter lengths and split candidates that are tried for a picture of `pixels` samples.
pub fn search_space(pixels: u64, model_id: usize, dctif_only: bool) -> (s: (Vec<usize>, Vec<usize>))
    ensures
        (s.0@, s.1@) == spec_space(pixels as int, model_id as int, dctif_only),
{
    let ((a, b), (c, d)): ((usize, usize), (usize, usize)) = if dctif_only {
        ((1, 1), (0, 0))
    } else if pixels <= 1_000_000 {
        if model_id == 0 {
            ((1, 2), (0, 2))
        } else if model_id == 1 {
            ((3, 4), (0, 2))
        } else {
            ((3, 4), (4, 7))
        }
    } else if pixels <= 4_000_000 {
        if model_id == 0 {
            ((1, 3), (0, 7))
        } else if model_id == 1 {
            ((2, 4), (0, 7))
        } else {
            ((3, 4), (4, 7))
        }
    } else if pixels <= 9_000_000 {
        if model_id == 0 {
            ((1, 3), (3, 7))
        } else if model_id == 1 {
            ((3, 4), (3, 7))
        } else {
            ((4, 4), (6, 7))
        }
    } else if pixels < 16_000_000 {
        if model_id == 0 {
            ((1, 3), (5, 7))
        } else if model_id == 1 {
            ((4, 4), (5, 7))
        } else {
            ((4, 4), (6, 7))
        }
    } else {
        if model_id == 0 {
            ((3, 4), (6, 7))
        } else {
            ((4, 4), (6, 7))
        }
    };
    let (lengths, candidates): (Vec<usize>, Vec<usize>) = (run(a, b), run(c, d));
    proof {
        let s = spec_space(pixels as int, model_id as int, dctif_only);
        assert(lengths@ =~= s.0);
        assert(candidates@ =~= s.1);
    }
    (lengths, candidates)
}

/// Whether the up-sampled picture's own filters are searched: only for the non-linear filter, on
/// pictures under 4000 x 4000.
pub fn wants_upsampled(pixels: u64, dctif_only: bool, efe_nonlinear: bool) -> (b: bool)
    ensures
        b == (pixels < 16_000_000 && !dctif_only && efe_nonlinear),
{
    pixels < 16_000_000 && !dctif_only && efe_nonlinear
}

/// The best filters of a plane so far: their length and their split candidate.
#[derive(Clone, Copy, Debug, PartialEq, Eq, Structural)]
pub struct BestFilter {
    pub length: usize,
    pub cand: usize,
}

/// A search over filter lengths and split candidates, both chroma planes at once. It starts from
/// the baseline: length 1, candidate 0.
pub struct SplitSearch {
    pub lengths: Vec<usize>,
    pub candidates: Vec<usize>,
    /// Which length and which candidate come next.
    pub at: usize,
    pub next: usize,
    pub u: BestFilter,
    pub v: BestFilter,
    pub stopped: bool,
}

/// The baseline, which needs no trial of its own.
pub open spec fn is_baseline(length: usize, cand: usize) -> bool {
    length == 1 && EFE_LINEAR_SPLITS@[cand as int] == 1
}

/// The next pair to try, from a length and a candidate on.
pub open spec fn spec_next(lengths: Seq<usize>, candidates: Seq<usize>, at: int, next: int) -> Option<
    (int, int),
>
    decreases lengths.len() - at, candidates.len() - next,
{
    if !(0 <= at < lengths.len()) || next < 0 {
        None
    } else if next >= candidates.len() {
        if candidates.len() == 0 {
            None
        } else {
            spec_next(lengths, candidates, at + 1, 0)
        }
    } else if is_baseline(lengths[at], candidates[next]) {
        spec_next(lengths, candidates, at, next + 1)
    } else {
        Some((at, next))
    }
}

/// The search ends early: a length past 1, 2 or 3 was tried and neither plane has moved up to the
/// length before it.
pub open spec fn gives_up(length: usize, u: BestFilter, v: BestFilter) -> bool {
    ||| length == 2 && u.length == 1 && v.length == 1 && u.cand == 0 && v.cand == 0
    ||| length == 3 && u.length < 2 && v.length < 2
    ||| length == 4 && u.length < 3 && v.length < 3
}

impl SplitSearch {
    /// Every candidate has splits.
    pub open spec fn wf(&self) -> bool {
        forall|i: int| 0 <= i < self.candidates@.len() ==> #[trigger] self.candidates@[i] < 8
    }

    /// The pair to try next.
    pub open spec fn spec_pair(&self) -> Option<(int, int)> {
        if self.stopped {
            None
        } else {
            spec_next(self.lengths@, self.candidates@, self.at as int, self.next as int)
        }
    }

    /// Start a search.
    pub fn new(lengths: Vec<usize>, candidates: Vec<usize>) -> (s: Self)
        requires
            forall|i: int| 0 <= i < candidates@.len() ==> #[trigger] candidates@[i] < 8,
        ensures
            s.wf(),
            s.lengths == lengths,
            s.candidates == candidates,
            s.at == 0,
            s.next == 0,
            s.u == (BestFilter { length: 1, cand: 0 }),
            s.v == s.u,
            !s.stopped,
    {
        let baseline = BestFilter { length: 1, cand: 0 };
        SplitSearch {
            lengths,
            candidates,
            at: 0,
            next: 0,
            u: baseline,
            v: baseline,
            stopped: false,
        }
    }

    /// The filter length and split candidate to try next; none where the search has ended.
    pub fn pair(&self) -> (p: Option<(usize, usize)>)
        requires
            self.wf(),
        ensures
            match self.spec_pair() {
                Some((i, j)) => p == Some((self.lengths@[i], self.candidates@[j])),
                None => p is None,
            },
    {
        match self.seek() {
            Some((i, j)) => Some((self.lengths[i], self.candidates[j])),
            None => None,
        }
    }

    /// Where the pair to try next stands.
    fn seek(&self) -> (p: Option<(usize, usize)>)
        requires
            self.wf(),
        ensures
            match self.spec_pair() {
                Some((i, j)) => p == Some((i as usize, j as usize)) && 0 <= i < self.lengths@.len()
                    && 0 <= j < self.candidates@.len() && p->Some_0.0 == i && p->Some_0.1 == j,
                None => p is None,
            },
    {
        if self.stopped {
            return None;
        }
        let (mut i, mut j): (usize, usize) = (self.at, self.next);
        while i < self.lengths.len()
            invariant
                self.wf(),
                !self.stopped,
                spec_next(self.lengths@, self.candidates@, i as int, j as int) == self.spec_pair(),
            decreases self.lengths@.len() - i, self.candidates@.len() - j,
        {
            if j >= self.candidates.len() {
                if self.candidates.len() == 0 {
                    return None;
                }
                i = i + 1;
                j = 0;
            } else {
                assert(self.candidates@[j as int] < 8);
                if self.lengths[i] == 1 && EFE_LINEAR_SPLITS[self.candidates[j]] == 1 {
                    j = j + 1;
                } else {
                    return Some((i, j));
                }
            }
        }
        None
    }

    /// The pair was tried; `u` and `v` say whether its loss beats the best of each plane.
    pub fn record(&mut self, u: bool, v: bool)
        requires
            old(self).wf(),
            old(self).spec_pair() is Some,
        ensures
            final(self).wf(),
            final(self).lengths == old(self).lengths,
            final(self).candidates == old(self).candidates,
            ({
                let (i, j) = old(self).spec_pair()->Some_0;
                let tried = BestFilter {
                    length: old(self).lengths@[i],
                    cand: old(self).candidates@[j],
                };
                &&& final(self).u == if u {
                    tried
                } else {
                    old(self).u
                }
                &&& final(self).v == if v {
                    tried
                } else {
                    old(self).v
                }
                &&& final(self).at == i
                &&& final(self).next == j + 1
                &&& final(self).stopped == gives_up(tried.length, final(self).u, final(self).v)
            }),
    {
        let (i, j): (usize, usize) = match self.seek() {
            Some(p) => p,
            None => (0, 0),
        };
        let count: usize = self.candidates.len();
        let tried = BestFilter { length: self.lengths[i], cand: self.candidates[j] };
        if u {
            self.u = tried;
        }
        if v {
            self.v = tried;
        }
        self.at = i;
        self.next = if j < count { j + 1 } else { count };
        let (bu, bv): (BestFilter, BestFilter) = (self.u, self.v);
        self.stopped = (tried.length == 2 && bu.length == 1 && bv.length == 1 && bu.cand == 0
            && bv.cand == 0) || (tried.length == 3 && bu.length < 2 && bv.length < 2) || (
        tried.length == 4 && bu.length < 3 && bv.length < 3);
    }
}

/// Pairs that are left from a length and a candidate on, tried or not.
pub open spec fn left(lengths: int, candidates: int, at: int, next: int) -> int {
    if at >= lengths {
        0
    } else {
        (lengths - at) * candidates - next
    }
}

/// Every trial leaves fewer pairs to try, so a search ends.
pub proof fn law_search_ends(lengths: Seq<usize>, candidates: Seq<usize>, at: int, next: int)
    requires
        0 <= at,
        0 <= next <= candidates.len(),
        spec_next(lengths, candidates, at, next) is Some,
    ensures
        ({
            let (i, j) = spec_next(lengths, candidates, at, next)->Some_0;
            let (l, c) = (lengths.len() as int, candidates.len() as int);
            0 <= i < l && 0 <= j < c && 0 <= left(l, c, i, j + 1) < left(l, c, at, next)
        }),
    decreases lengths.len() - at, candidates.len() - next,
{
    let (l, c) = (lengths.len() as int, candidates.len() as int);
    if next >= c {
        law_search_ends(lengths, candidates, at + 1, 0);
        assert((l - at) * c - c == (l - (at + 1)) * c) by (nonlinear_arith);
    } else if is_baseline(lengths[at], candidates[next]) {
        law_search_ends(lengths, candidates, at, next + 1);
    } else {
        assert((l - at) * c >= c) by (nonlinear_arith)
            requires
                at < l,
                0 <= c,
        ;
    }
}

/// Planes of the source and the reconstruction that the search compares.
#[derive(Clone, Copy, Debug, PartialEq, Eq, Structural)]
pub struct PlaneSizes {
    pub y: PlaneSize,
    pub u: PlaneSize,
    pub v: PlaneSize,
}

/// Two planes have one size.
pub open spec fn alike(a: PlaneSize, b: PlaneSize) -> bool {
    a.h == b.h && a.w == b.w
}

/// The source and the reconstruction go together.
pub open spec fn sizes_agree(s_ver: u8, s_hor: u8, org: PlaneSizes, rec: PlaneSizes) -> bool {
    &&& tiles::ceil(rec.y.h as int, 2) == tiles::ceil(org.u.h as int, 3 - s_ver)
    &&& tiles::ceil(rec.y.w as int, 2) == tiles::ceil(org.u.w as int, 3 - s_hor)
    &&& alike(org.u, org.v)
    &&& alike(org.u, rec.u)
    &&& alike(rec.y, org.y)
}

/// Check that the source and the reconstruction go together.
pub fn check_sizes(s_ver: u8, s_hor: u8, org: PlaneSizes, rec: PlaneSizes) -> (r: Result<()>)
    requires
        1 <= s_ver <= 2,
        1 <= s_hor <= 2,
    ensures
        r == if sizes_agree(s_ver, s_hor, org, rec) {
            Ok::<(), Error>(())
        } else {
            Err::<(), Error>(
                Error::InvalidArgument("EFE linear: reconstruction and source sizes differ"),
            )
        },
{
    let (fv, fh): (usize, usize) = (3 - s_ver as usize, 3 - s_hor as usize);
    let (s0, s1): (usize, usize) = (tiles::div_up(org.u.h, fv), tiles::div_up(org.u.w, fh));
    if tiles::div_up(rec.y.h, 2) != s0 || tiles::div_up(rec.y.w, 2) != s1 || org.u.h != org.v.h
        || org.u.w != org.v.w || org.u.h != rec.u.h || org.u.w != rec.u.w || rec.y.h != org.y.h
        || rec.y.w != org.y.w {
        return Err(Error::InvalidArgument("EFE linear: reconstruction and source sizes differ"));
    }
    Ok(())
}

/// How a search lays out a picture.
pub open spec fn spec_search_plan(meta: SourceMeta, y: PlaneSize) -> LinearPlan {
    LinearPlan {
        fv: (3 - meta.s_ver) as usize,
        fh: (3 - meta.s_hor) as usize,
        s0: tiles::ceil(y.h as int, 2) as usize,
        s1: tiles::ceil(y.w as int, 2) as usize,
        coded_444: meta.c_ver == meta.s_ver && meta.c_hor == meta.s_hor,
        alternative: false,
    }
}

/// How the search lays out a picture, once the source and the reconstruction go together.
pub fn search_plan(meta: &SourceMeta, org: PlaneSizes, rec: PlaneSizes) -> (r: Result<LinearPlan>)
    requires
        1 <= meta.s_ver <= 2,
        1 <= meta.s_hor <= 2,
    ensures
        r == if sizes_agree(meta.s_ver, meta.s_hor, org, rec) {
            Ok::<LinearPlan, Error>(spec_search_plan(*meta, rec.y))
        } else {
            Err::<LinearPlan, Error>(
                Error::InvalidArgument("EFE linear: reconstruction and source sizes differ"),
            )
        },
{
    check_sizes(meta.s_ver, meta.s_hor, org, rec)?;
    Ok(
        LinearPlan {
            fv: 3 - meta.s_ver as usize,
            fh: 3 - meta.s_hor as usize,
            s0: tiles::div_up(rec.y.h, 2),
            s1: tiles::div_up(rec.y.w, 2),
            coded_444: meta.c_ver == meta.s_ver && meta.c_hor == meta.s_hor,
            alternative: false,
        },
    )
}

/// The phase plane that luma phase `i` reads of a chroma plane with `fv` by `fh` phases: its own
/// phase along an axis with two of them, the only one along the other.
pub open spec fn spec_channel_phase(i: int, fv: int, fh: int) -> int {
    (if fv == 2 {
        i / 2
    } else {
        0
    }) * 2 + (if fh == 2 {
        i % 2
    } else {
        0
    })
}

/// The phase plane that luma phase `i` reads of a chroma plane with `fv` by `fh` phases.
pub fn chroma_channel_phase(i: usize, fv: usize, fh: usize) -> (g: usize)
    ensures
        g == spec_channel_phase(i as int, fv as int, fh as int),
{
    let py: usize = if fv == 2 { i / 2 } else { 0 };
    let px: usize = if fh == 2 { i % 2 } else { 0 };
    py * 2 + px
}

/// A phase that is read is one that the plane has.
pub proof fn law_read_phases_exist(i: int, fv: int, fh: int)
    requires
        0 <= i < 4,
        1 <= fv <= 2,
        1 <= fh <= 2,
    ensures
        ({
            let g = spec_channel_phase(i, fv, fh);
            0 <= g < 4 && g / 2 < fv && g % 2 < fh
        }),
{
}

/// Rows and columns of region `num` of a candidate on phase planes of `s0 x s1` samples.
pub fn region_extent(cand: usize, num: usize, s0: usize, s1: usize) -> (r: (
    (usize, usize),
    (usize, usize),
))
    requires
        cand < 8,
        num < EFE_LINEAR_SPLITS@[cand as int],
        s0 <= 0x0fff_ffff,
        s1 <= 0x0fff_ffff,
    ensures
        ({
            let split = SPLITS@[cand as int]@[num as int]@;
            &&& (r.0.0 as int, r.0.1 as int) == filters::spec_extent(split, 0, s0 as int)
            &&& (r.1.0 as int, r.1.1 as int) == filters::spec_extent(split, 2, s1 as int)
        }),
{
    proof {
        filters::lemma_fractions(cand as int, num as int, 0);
        filters::lemma_fractions(cand as int, num as int, 1);
        filters::lemma_fractions(cand as int, num as int, 2);
        filters::lemma_fractions(cand as int, num as int, 3);
    }
    let split: [u64; 4] = SPLITS[cand][num];
    (extent(&split, 0, s0), extent(&split, 2, s1))
}

} // verus!
