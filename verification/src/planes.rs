//! Moving samples between planes: merging tiles, padding, sub-sampling, unshuffling.

use vstd::prelude::*;

use crate::area;
use crate::area::Area;
use crate::tensor;
use crate::tensor::Tensor;

verus! {

/// Dimensions of a tensor.
#[derive(Clone, Copy, Debug, PartialEq, Eq, Structural)]
pub struct PlaneSize {
    pub c: usize,
    pub h: usize,
    pub w: usize,
}

/// How many of `len` samples there are both behind `from` in a source of `src` samples and behind
/// `at` in a destination of `dst` samples.
pub open spec fn overlap(len: int, src: int, from: int, dst: int, at: int) -> int {
    let a = area::clipped_len(from, len, src);
    area::clipped_len(at, a, dst)
}

/// The part of `core` that is copied from a source at an offset.
pub open spec fn copied_area(
    core: Area,
    src_h: int,
    src_w: int,
    offset: (usize, usize),
    dst_h: int,
    dst_w: int,
) -> Area {
    Area {
        width: overlap(
            core.width as int,
            src_w,
            offset.0 as int,
            dst_w,
            core.x as int,
        ) as usize,
        height: overlap(
            core.height as int,
            src_h,
            offset.1 as int,
            dst_h,
            core.y as int,
        ) as usize,
        ..core
    }
}

/// Samples of `h x w` planes with part of a source copied in at `core`.
pub open spec fn assigned_to<T>(
    data: Seq<T>,
    h: int,
    w: int,
    core: Area,
    src: Tensor<T>,
    offset: (usize, usize),
) -> Seq<T> {
    let part = copied_area(core, src.h as int, src.w as int, offset, h, w);
    Seq::new(
        data.len(),
        |p: int|
            {
                let (c, y, x) = (p / w / h, p / w % h, p % w);
                if c < src.c && part.holds(x, y) {
                    src.data@[tensor::place(
                        src.h as int,
                        src.w as int,
                        c,
                        y - core.y + offset.1,
                        x - core.x + offset.0,
                    )]
                } else {
                    data[p]
                }
            },
    )
}

/// Planes with part of a source copied in at `core`.
pub open spec fn assigned<T>(
    dst: Tensor<T>,
    core: Area,
    src: Tensor<T>,
    offset: (usize, usize),
) -> Seq<T> {
    assigned_to(dst.data@, dst.h as int, dst.w as int, core, src, offset)
}

fn overlapping(len: usize, src: usize, from: usize, dst: usize, at: usize) -> (n: usize)
    ensures
        n == overlap(len as int, src as int, from as int, dst as int, at as int),
        n > 0 ==> from + n <= src && at + n <= dst,
{
    let a: usize = if from >= src {
        0
    } else if len <= src - from {
        len
    } else {
        src - from
    };
    if at >= dst {
        0
    } else if a <= dst - at {
        a
    } else {
        dst - at
    }
}

/// Copy `src[:, oy.., ox..]` into `dst` at `core`, clamped to both: channels, rows and columns
/// that one of them does not have are left alone. `offset` is `(ox, oy)`.
pub fn assign<T: Copy>(dst: &mut Tensor<T>, core: Area, src: &Tensor<T>, offset: (usize, usize))
    requires
        old(dst).wf(),
        src.wf(),
    ensures
        final(dst).is_of(old(dst).c as int, old(dst).h as int, old(dst).w as int),
        final(dst).data@ == assigned(*old(dst), core, *src, offset),
{
    let ghost before = *dst;
    let ghost want = assigned(*dst, core, *src, offset);
    let (h, w): (usize, usize) = (dst.h, dst.w);
    let rows: usize = overlapping(core.height, src.h, offset.1, h, core.y);
    let cols: usize = overlapping(core.width, src.w, offset.0, w, core.x);
    let len: usize = dst.data.len();
    let src_len: usize = src.data.len();
    let mut p: usize = 0;
    while p < len
        invariant
            p <= len,
            len == dst.data@.len(),
            len == before.data@.len(),
            before.wf(),
            src.wf(),
            src_len == src.data@.len(),
            dst.c == before.c,
            dst.h == before.h,
            dst.w == before.w,
            h == before.h,
            w == before.w,
            rows == overlap(
                core.height as int,
                src.h as int,
                offset.1 as int,
                h as int,
                core.y as int,
            ),
            cols == overlap(
                core.width as int,
                src.w as int,
                offset.0 as int,
                w as int,
                core.x as int,
            ),
            rows > 0 ==> offset.1 + rows <= src.h && core.y + rows <= h,
            cols > 0 ==> offset.0 + cols <= src.w && core.x + cols <= w,
            want == assigned(before, core, *src, offset),
            forall|q: int| 0 <= q < p ==> #[trigger] dst.data@[q] == want[q],
            forall|q: int| p <= q < len ==> #[trigger] dst.data@[q] == before.data@[q],
        decreases len - p,
    {
        proof {
            lemma_nonempty(before.c as int, h as int, w as int, len as int);
            tensor::lemma_parts_place(h as int, w as int, before.c as int, p as int);
        }
        let row: usize = p / w;
        let (c, y, x): (usize, usize, usize) = (row / h, row % h, p % w);
        if c < src.c && y >= core.y && y - core.y < rows && x >= core.x && x - core.x < cols {
            let sy: usize = y - core.y + offset.1;
            let sx: usize = x - core.x + offset.0;
            proof {
                lemma_place_steps(
                    src.c as int,
                    src.h as int,
                    src.w as int,
                    c as int,
                    sy as int,
                    sx as int,
                );
            }
            let v: T = src.data[(c * src.h + sy) * src.w + sx];
            dst.data.set(p, v);
        }
        p = p + 1;
    }
    proof {
        assert(dst.data@ =~= want);
    }
}

/// Planes that hold a sample have rows and columns.
pub proof fn lemma_nonempty(c: int, h: int, w: int, len: int)
    requires
        0 <= c,
        0 <= h,
        0 <= w,
        len == c * h * w,
        len > 0,
    ensures
        h > 0,
        w > 0,
{
    assert(h > 0 && w > 0) by (nonlinear_arith)
        requires
            0 <= c,
            0 <= h,
            0 <= w,
            c * h * w > 0,
    ;
}

/// Computing a place does not overflow where the data fits in memory.
proof fn lemma_place_steps(n: int, h: int, w: int, c: int, y: int, x: int)
    requires
        0 <= c < n,
        0 <= y < h,
        0 <= x < w,
    ensures
        0 <= c * h <= n * h * w,
        0 <= c * h + y <= n * h * w,
        0 <= (c * h + y) * w <= n * h * w,
        0 <= tensor::place(h, w, c, y, x) < n * h * w,
{
    tensor::lemma_place(h, w, n, c, y, x);
    let r = c * h + y;
    assert(0 <= c * h) by (nonlinear_arith)
        requires
            0 <= c,
            0 <= h,
    ;
    assert(r <= r * w) by (nonlinear_arith)
        requires
            r >= 0,
            w >= 1,
    ;
}

/// One plane with samples of a tile's core put in at the coded sub-sampling.
pub open spec fn subsampled<T>(
    dst: Tensor<T>,
    src: Tensor<T>,
    plane: int,
    core: Area,
    offset: (usize, usize),
    sv: int,
    sh: int,
) -> Seq<T> {
    let w = dst.w as int;
    Seq::new(
        dst.data@.len(),
        |p: int|
            {
                let (y, x) = (p / w * sv, p % w * sh);
                if core.holds(x, y) {
                    src.data@[tensor::place(
                        src.h as int,
                        src.w as int,
                        plane,
                        y - core.y + offset.1,
                        x - core.x + offset.0,
                    )]
                } else {
                    dst.data@[p]
                }
            },
    )
}

/// Put the samples of a tile's core that survive the sub-sampling by `sv x sh` into a plane:
/// the plane's sample `(y, x)` is the picture's `(y * sv, x * sh)`.
pub fn subsample_into<T: Copy>(
    dst: &mut Tensor<T>,
    src: &Tensor<T>,
    plane: usize,
    core: Area,
    offset: (usize, usize),
    sv: usize,
    sh: usize,
)
    requires
        old(dst).wf(),
        old(dst).c == 1,
        src.wf(),
        plane < src.c,
        offset.1 + core.height <= src.h,
        offset.0 + core.width <= src.w,
        core.y + core.height <= usize::MAX,
        core.x + core.width <= usize::MAX,
        sv >= 1,
        sh >= 1,
        old(dst).h * sv <= usize::MAX,
        old(dst).w * sh <= usize::MAX,
    ensures
        final(dst).is_of(1, old(dst).h as int, old(dst).w as int),
        final(dst).data@ == subsampled(
            *old(dst),
            *src,
            plane as int,
            core,
            offset,
            sv as int,
            sh as int,
        ),
{
    let ghost before = *dst;
    let ghost want = subsampled(
        *dst,
        *src,
        plane as int,
        core,
        offset,
        sv as int,
        sh as int,
    );
    let (h, w): (usize, usize) = (dst.h, dst.w);
    let len: usize = dst.data.len();
    let src_len: usize = src.data.len();
    let mut p: usize = 0;
    while p < len
        invariant
            p <= len,
            len == dst.data@.len(),
            len == before.data@.len(),
            before.wf(),
            before.c == 1,
            src.wf(),
            src_len == src.data@.len(),
            plane < src.c,
            offset.1 + core.height <= src.h,
            offset.0 + core.width <= src.w,
            core.y + core.height <= usize::MAX,
            core.x + core.width <= usize::MAX,
            sv >= 1,
            sh >= 1,
            before.h * sv <= usize::MAX,
            before.w * sh <= usize::MAX,
            dst.c == before.c,
            dst.h == before.h,
            dst.w == before.w,
            h == before.h,
            w == before.w,
            want == subsampled(
                before,
                *src,
                plane as int,
                core,
                offset,
                sv as int,
                sh as int,
            ),
            forall|q: int| 0 <= q < p ==> #[trigger] dst.data@[q] == want[q],
            forall|q: int| p <= q < len ==> #[trigger] dst.data@[q] == before.data@[q],
        decreases len - p,
    {
        proof {
            lemma_nonempty(1, h as int, w as int, len as int);
            tensor::lemma_parts_place(h as int, w as int, 1, p as int);
            let (r, c) = (p as int / w as int, p as int % w as int);
            assert(r < h);
            assert(0 <= r * sv <= h * sv) by (nonlinear_arith)
                requires
                    0 <= r <= h,
                    sv >= 1,
            ;
            assert(0 <= c * sh <= w * sh) by (nonlinear_arith)
                requires
                    0 <= c <= w,
                    sh >= 1,
            ;
        }
        let y: usize = p / w * sv;
        let x: usize = p % w * sh;
        if y >= core.y && y - core.y < core.height && x >= core.x && x - core.x < core.width {
            let sy: usize = y - core.y + offset.1;
            let sx: usize = x - core.x + offset.0;
            proof {
                lemma_place_steps(
                    src.c as int,
                    src.h as int,
                    src.w as int,
                    plane as int,
                    sy as int,
                    sx as int,
                );
            }
            let v: T = src.data[(plane * src.h + sy) * src.w + sx];
            dst.data.set(p, v);
        }
        p = p + 1;
    }
    proof {
        assert(dst.data@ =~= want);
    }
}

/// A plane with its last row and column repeated.
pub open spec fn padded<T>(src: Seq<T>, w: int, h: int, pw: int, ph: int) -> Seq<T> {
    Seq::new(
        (ph * pw) as nat,
        |p: int|
            {
                let (y, x) = (p / pw, p % pw);
                src[(if y < h {
                    y
                } else {
                    h - 1
                }) * w + if x < w {
                    x
                } else {
                    w - 1
                }]
            },
    )
}

/// Replicate the last row / column of a `w x h` plane up to `pw x ph`.
pub fn replicate_pad<T: Copy>(src: &Vec<T>, w: usize, h: usize, pw: usize, ph: usize) -> (out: Vec<
    T,
>)
    requires
        src@.len() == w * h,
        1 <= w,
        1 <= h,
        ph * pw <= usize::MAX,
    ensures
        out@ == padded(src@, w as int, h as int, pw as int, ph as int),
{
    let src_len: usize = src.len();
    let len: usize = ph * pw;
    let mut out: Vec<T> = Vec::new();
    while out.len() < len
        invariant
            out@.len() <= len,
            len == ph * pw,
            src@.len() == w * h,
            src_len == src@.len(),
            1 <= w,
            1 <= h,
            forall|q: int|
                0 <= q < out@.len() ==> #[trigger] out@[q] == padded(
                    src@,
                    w as int,
                    h as int,
                    pw as int,
                    ph as int,
                )[q],
        decreases len - out@.len(),
    {
        let p: usize = out.len();
        proof {
            assert(pw > 0) by (nonlinear_arith)
                requires
                    ph * pw > 0,
                    0 <= ph,
                    0 <= pw,
            ;
        }
        let (y, x): (usize, usize) = (p / pw, p % pw);
        let sy: usize = if y < h { y } else { h - 1 };
        let sx: usize = if x < w { x } else { w - 1 };
        proof {
            assert(0 <= sy * w && sy * w + sx < w * h) by (nonlinear_arith)
                requires
                    0 <= sy <= h - 1,
                    0 <= sx <= w - 1,
            ;
        }
        out.push(src[sy * w + sx]);
    }
    proof {
        assert(out@ =~= padded(src@, w as int, h as int, pw as int, ph as int));
    }
    out
}

/// Planes whose channels `base .. base + 4` are the four phases of a plane.
pub open spec fn unshuffled<T>(out: Tensor<T>, base: int, plane: Seq<T>, pw: int) -> Seq<T> {
    let (h, w) = (out.h as int, out.w as int);
    Seq::new(
        out.data@.len(),
        |p: int|
            {
                let (c, y, x) = (p / w / h, p / w % h, p % w);
                if base <= c < base + 4 {
                    plane[(2 * y + (c - base) / 2) * pw + (2 * x + (c - base) % 2)]
                } else {
                    out.data@[p]
                }
            },
    )
}

/// The four phases of a plane of even size into the channels `base .. base + 4`: channel
/// `base + 2 * dy + dx` takes the samples of the rows `2 y + dy` and columns `2 x + dx`.
pub fn unshuffle_into<T: Copy>(out: &mut Tensor<T>, base: usize, plane: &Vec<T>, ph: usize, pw: usize)
    requires
        old(out).wf(),
        base + 4 <= old(out).c,
        ph == 2 * old(out).h,
        pw == 2 * old(out).w,
        plane@.len() == ph * pw,
    ensures
        final(out).is_of(old(out).c as int, old(out).h as int, old(out).w as int),
        final(out).data@ == unshuffled(*old(out), base as int, plane@, pw as int),
{
    let ghost before = *out;
    let ghost want = unshuffled(*out, base as int, plane@, pw as int);
    let (h, w): (usize, usize) = (out.h, out.w);
    let len: usize = out.data.len();
    let plane_len: usize = plane.len();
    let mut p: usize = 0;
    while p < len
        invariant
            p <= len,
            len == out.data@.len(),
            len == before.data@.len(),
            before.wf(),
            out.c == before.c,
            out.h == before.h,
            out.w == before.w,
            h == before.h,
            w == before.w,
            base + 4 <= before.c,
            ph == 2 * h,
            pw == 2 * w,
            plane@.len() == ph * pw,
            plane_len == plane@.len(),
            want == unshuffled(before, base as int, plane@, pw as int),
            forall|q: int| 0 <= q < p ==> #[trigger] out.data@[q] == want[q],
            forall|q: int| p <= q < len ==> #[trigger] out.data@[q] == before.data@[q],
        decreases len - p,
    {
        proof {
            lemma_nonempty(before.c as int, h as int, w as int, len as int);
            tensor::lemma_parts_place(h as int, w as int, before.c as int, p as int);
        }
        let row: usize = p / w;
        let (c, y, x): (usize, usize, usize) = (row / h, row % h, p % w);
        if c >= base && c - base < 4 {
            let k: usize = c - base;
            proof {
                let sy = 2 * y + k as int / 2;
                let sx = 2 * x + k as int % 2;
                assert(0 <= sy < ph && 0 <= sx < pw);
                assert(0 <= sy * pw && sy * pw + sx < ph * pw) by (nonlinear_arith)
                    requires
                        0 <= sy <= ph - 1,
                        0 <= sx <= pw - 1,
                ;
            }
            let v: T = plane[(2 * y + k / 2) * pw + (2 * x + k % 2)];
            out.data.set(p, v);
        }
        p = p + 1;
    }
    proof {
        assert(out.data@ =~= want);
    }
}

} // verus!
