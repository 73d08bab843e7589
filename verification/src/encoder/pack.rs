//! The twelve planes that the chroma analysis transform takes: the four luma phases, then eight
//! channels of coded chroma.

use vstd::prelude::*;

use crate::encoder::colour;
use crate::encoder::colour::{SourceImage, SourceMeta};
use crate::encoder::tiles;
use crate::error::{Error, Result};
use crate::planes;
use crate::tensor;
use crate::tensor::Tensor;

verus! {

/// The planes of a source have the sizes that it claims.
pub open spec fn planes_match(src: SourceImage) -> bool {
    match src {
        SourceImage::Rgb(i) => i.data@.len() == i.width * i.height * 3,
        SourceImage::Yuv(i) => {
            &&& i.y@.len() == i.width * i.height
            &&& i.u@.len() == i.chroma_width * i.chroma_height
            &&& i.v@.len() == i.chroma_width * i.chroma_height
        },
    }
}

/// Whether a buffer of `len` samples holds `a x b`.
fn fills(len: usize, a: usize, b: usize) -> (r: bool)
    ensures
        r == (len == a * b),
{
    proof {
        assert(0 <= a * b <= 0xffff_ffff_ffff_ffff * 0xffff_ffff_ffff_ffff) by (nonlinear_arith)
            requires
                0 <= a <= 0xffff_ffff_ffff_ffff,
                0 <= b <= 0xffff_ffff_ffff_ffff,
        ;
    }
    len as u128 == a as u128 * b as u128
}

/// Check that the planes of a source have the sizes that it claims.
pub fn check_planes(src: &SourceImage) -> (r: Result<()>)
    ensures
        r == if planes_match(*src) {
            Ok::<(), Error>(())
        } else {
            Err::<(), Error>(
                match src {
                    SourceImage::Rgb(_) => Error::InvalidArgument("RGB buffer size does not match"),
                    SourceImage::Yuv(_) => Error::InvalidArgument("YUV plane size does not match"),
                },
            )
        },
{
    match src {
        SourceImage::Rgb(i) => {
            let len: usize = i.data.len();
            if len % 3 != 0 || !fills(len / 3, i.width, i.height) {
                return Err(Error::InvalidArgument("RGB buffer size does not match"));
            }
            Ok(())
        },
        SourceImage::Yuv(i) => {
            if !fills(i.y.len(), i.width, i.height) || !fills(
                i.u.len(),
                i.chroma_width,
                i.chroma_height,
            ) || !fills(i.v.len(), i.chroma_width, i.chroma_height) {
                return Err(Error::InvalidArgument("YUV plane size does not match"));
            }
            Ok(())
        },
    }
}

/// The size of a chroma plane of `h x w` samples after the step from the factors `s` to `c`; the
/// planes are resampled where the two differ.
pub open spec fn spec_coded_size(h: int, w: int, s: (u8, u8), c: (u8, u8)) -> Result<(int, int)> {
    if s == c {
        Ok((h, w))
    } else if !colour::is_format(c) {
        Err(Error::Unsupported("coded chroma format must be 4:4:4, 4:2:2 or 4:2:0"))
    } else if s != (1u8, 1u8) {
        Err(Error::Unsupported("chroma conversion between subsampled formats"))
    } else if c == (1u8, 2u8) {
        Ok((h, tiles::ceil(w, 2)))
    } else {
        Ok((tiles::ceil(h, 2), tiles::ceil(w, 2)))
    }
}

/// The size of a chroma plane of `h x w` samples in the coded format: `(height, width)`. The only
/// conversion is down-sampling from 4:4:4.
pub fn coded_size(h: usize, w: usize, meta: &SourceMeta) -> (r: Result<(usize, usize)>)
    ensures
        match spec_coded_size(h as int, w as int, (meta.s_ver, meta.s_hor), (meta.c_ver, meta.c_hor)) {
            Ok(v) => r matches Ok(x) && (x.0 as int, x.1 as int) == v,
            Err(e) => r == Err::<(usize, usize), Error>(e),
        },
{
    if meta.s_ver == meta.c_ver && meta.s_hor == meta.c_hor {
        return Ok((h, w));
    }
    let known: bool = (meta.c_ver == 1 && (meta.c_hor == 1 || meta.c_hor == 2)) || (meta.c_ver == 2
        && meta.c_hor == 2);
    if !known {
        return Err(Error::Unsupported("coded chroma format must be 4:4:4, 4:2:2 or 4:2:0"));
    }
    if meta.s_ver != 1 || meta.s_hor != 1 {
        return Err(Error::Unsupported("chroma conversion between subsampled formats"));
    }
    if meta.c_ver == 1 {
        Ok((h, tiles::div_up(w, 2)))
    } else {
        Ok((tiles::div_up(h, 2), tiles::div_up(w, 2)))
    }
}

/// A plane's sample, its last row and column repeated without end.
pub open spec fn sample<T>(plane: Seq<T>, w: int, h: int, y: int, x: int) -> T {
    plane[(if y < h {
        y
    } else {
        h - 1
    }) * w + if x < w {
        x
    } else {
        w - 1
    }]
}

/// What a chroma channel holds, `k` of 0 to 3 for each of the two components: a phase of it at
/// 4:4:4, the plane itself at 4:2:0, its even or odd rows at 4:2:2.
pub open spec fn chroma_sample<T>(
    plane: Seq<T>,
    w: int,
    h: int,
    c: (u8, u8),
    k: int,
    y: int,
    x: int,
) -> T {
    if c == (1u8, 1u8) {
        sample(plane, w, h, 2 * y + k / 2, 2 * x + k % 2)
    } else if c == (2u8, 2u8) {
        plane[y * w + x]
    } else {
        sample(plane, w, h, 2 * y + k / 2, x)
    }
}

/// The twelve planes.
pub open spec fn packed<T>(
    luma: Seq<T>,
    w: int,
    h: int,
    u: Seq<T>,
    v: Seq<T>,
    cw: int,
    ch: int,
    c: (u8, u8),
) -> Seq<T> {
    let (oh, ow) = (tiles::ceil(h, 2), tiles::ceil(w, 2));
    Seq::new(
        (12 * oh * ow) as nat,
        |p: int|
            {
                let (n, y, x) = (p / ow / oh, p / ow % oh, p % ow);
                if n < 4 {
                    sample(luma, w, h, 2 * y + n / 2, 2 * x + n % 2)
                } else if n < 8 {
                    chroma_sample(u, cw, ch, c, n - 4, y, x)
                } else {
                    chroma_sample(v, cw, ch, c, n - 8, y, x)
                }
            },
    )
}

/// Why chroma of `ch x cw` samples does not go with a `w x h` picture in the format `c`.
pub open spec fn pack_error(w: int, h: int, cw: int, ch: int, c: (u8, u8)) -> Option<Error> {
    let (oh, ow) = (tiles::ceil(h, 2), tiles::ceil(w, 2));
    if c == (1u8, 1u8) {
        if (ch, cw) != (h, w) {
            Some(Error::InvalidData("4:4:4 chroma is not at luma size"))
        } else {
            None
        }
    } else if c == (2u8, 2u8) {
        if (ch, cw) != (oh, ow) {
            Some(Error::InvalidData("4:2:0 chroma is not at half size"))
        } else {
            None
        }
    } else if c == (1u8, 2u8) {
        if (ch, cw) != (h, ow) {
            Some(Error::InvalidData("4:2:2 chroma is not at full height"))
        } else {
            None
        }
    } else {
        Some(Error::Unsupported("coded chroma must be 4:4:4, 4:2:2 or 4:2:0"))
    }
}

/// A tensor of one value.
fn filled<T: Copy>(c: usize, h: usize, w: usize, value: T) -> (t: Tensor<T>)
    requires
        c * h <= usize::MAX,
        c * h * w <= usize::MAX,
    ensures
        t.is_of(c as int, h as int, w as int),
{
    let len: usize = c * h * w;
    let mut data: Vec<T> = Vec::new();
    while data.len() < len
        invariant
            data@.len() <= len,
        decreases len - data@.len(),
    {
        data.push(value);
    }
    Tensor { c, h, w, data }
}

/// Channels `base .. base + 4` hold the rows of a plane: all of them in each, or the even ones
/// twice and the odd ones twice.
spec fn with_rows<T>(out: Tensor<T>, base: int, plane: Seq<T>, split: bool) -> Seq<T> {
    let (h, w) = (out.h as int, out.w as int);
    Seq::new(
        out.data@.len(),
        |p: int|
            {
                let (c, y, x) = (p / w / h, p / w % h, p % w);
                if base <= c < base + 4 {
                    if split {
                        plane[(2 * y + (c - base) / 2) * w + x]
                    } else {
                        plane[y * w + x]
                    }
                } else {
                    out.data@[p]
                }
            },
    )
}

/// The rows of a plane into the channels `base .. base + 4`.
fn rows_into<T: Copy>(out: &mut Tensor<T>, base: usize, plane: &Vec<T>, split: bool)
    requires
        old(out).wf(),
        base + 4 <= old(out).c,
        plane@.len() == (if split {
            2 * old(out).h * old(out).w
        } else {
            old(out).h * old(out).w
        }),
    ensures
        final(out).is_of(old(out).c as int, old(out).h as int, old(out).w as int),
        final(out).data@ == with_rows(*old(out), base as int, plane@, split),
{
    let ghost before = *out;
    let ghost want = with_rows(*out, base as int, plane@, split);
    let (h, w): (usize, usize) = (out.h, out.w);
    let len: usize = out.data.len();
    let plane_len: usize = plane.len();
    let mut p: usize = 0;
    while p < len
        invariant
            p <= len,
            len == out.data@.len(),
            len == before.data@.len(),
            before.wf(),
            out.c == before.c,
            out.h == before.h,
            out.w == before.w,
            h == before.h,
            w == before.w,
            base + 4 <= before.c,
            plane_len == plane@.len(),
            plane_len == (if split {
                2 * h * w
            } else {
                h * w
            }),
            want == with_rows(before, base as int, plane@, split),
            forall|q: int| 0 <= q < p ==> #[trigger] out.data@[q] == want[q],
            forall|q: int| p <= q < len ==> #[trigger] out.data@[q] == before.data@[q],
        decreases len - p,
    {
        proof {
            planes::lemma_nonempty(before.c as int, h as int, w as int, len as int);
            tensor::lemma_parts_place(h as int, w as int, before.c as int, p as int);
        }
        let row: usize = p / w;
        let (c, y, x): (usize, usize, usize) = (row / h, row % h, p % w);
        if c >= base && c - base < 4 {
            let at: usize = row_place(y, x, h, w, c - base, split, plane_len);
            let v: T = plane[at];
            out.data.set(p, v);
        }
        p = p + 1;
    }
    proof {
        assert(out.data@ =~= want);
    }
}

/// Where the sample of a row channel lies in its plane.
fn row_place(y: usize, x: usize, h: usize, w: usize, k: usize, split: bool, len: usize) -> (at: usize)
    requires
        y < h,
        x < w,
        k < 4,
        len == (if split {
            2 * h * w
        } else {
            h * w
        }),
    ensures
        at < len,
        at == (if split {
            (2 * y + k as int / 2) * w + x
        } else {
            y * w + x
        }),
{
    if split {
        proof {
            let r = 2 * y + k as int / 2;
            assert(0 <= r * w && r * w + x < (2 * h) * w && r <= (r * w)) by (nonlinear_arith)
                requires
                    0 <= r <= 2 * h - 1,
                    0 <= x < w,
            ;
        }
        (2 * y + k / 2) * w + x
    } else {
        proof {
            assert(0 <= y * w && y * w + x < h * w) by (nonlinear_arith)
                requires
                    0 <= y <= h - 1,
                    0 <= x < w,
            ;
        }
        y * w + x
    }
}

/// A padded plane holds the plane's samples, its last row and column repeated.
proof fn lemma_padded<T>(src: Seq<T>, w: int, h: int, pw: int, ph: int, y: int, x: int)
    requires
        0 <= y < ph,
        0 <= x < pw,
    ensures
        0 <= y * pw + x < ph * pw,
        planes::padded(src, w, h, pw, ph)[y * pw + x] == sample(src, w, h, y, x),
{
    tensor::lemma_place(ph, pw, 1, 0, y, x);
    tensor::lemma_place_parts(ph, pw, 0, y, x);
    assert(0 * ph + y == y);
    assert(1 * ph * pw == ph * pw);
}

/// The twelve planes at 4:4:4, padded and unshuffled one after the other.
proof fn lemma_packed_444<T>(
    zero: Tensor<T>,
    luma: Seq<T>,
    u: Seq<T>,
    v: Seq<T>,
    w: int,
    h: int,
    a: Tensor<T>,
    b: Tensor<T>,
    c: Tensor<T>,
)
    requires
        1 <= w,
        1 <= h,
        zero.is_of(12, tiles::ceil(h, 2), tiles::ceil(w, 2)),
        a.is_of(12, tiles::ceil(h, 2), tiles::ceil(w, 2)),
        b.is_of(12, tiles::ceil(h, 2), tiles::ceil(w, 2)),
        c.is_of(12, tiles::ceil(h, 2), tiles::ceil(w, 2)),
        ({
            let (pw, ph) = (2 * tiles::ceil(w, 2), 2 * tiles::ceil(h, 2));
            &&& a.data@ == planes::unshuffled(zero, 0, planes::padded(luma, w, h, pw, ph), pw)
            &&& b.data@ == planes::unshuffled(a, 4, planes::padded(u, w, h, pw, ph), pw)
            &&& c.data@ == planes::unshuffled(b, 8, planes::padded(v, w, h, pw, ph), pw)
        }),
    ensures
        c.data@ == packed(luma, w, h, u, v, w, h, (1u8, 1u8)),
{
    let (oh, ow) = (tiles::ceil(h, 2), tiles::ceil(w, 2));
    let (pw, ph) = (2 * ow, 2 * oh);
    let want = packed(luma, w, h, u, v, w, h, (1u8, 1u8));
    assert forall|p: int| 0 <= p < c.data@.len() implies c.data@[p] == #[trigger] want[p] by {
        planes::lemma_nonempty(12, oh, ow, c.data@.len() as int);
        tensor::lemma_parts_place(oh, ow, 12, p);
        let (n, y, x) = (p / ow / oh, p / ow % oh, p % ow);
        lemma_padded(luma, w, h, pw, ph, 2 * y + n % 4 / 2, 2 * x + n % 2);
        lemma_padded(u, w, h, pw, ph, 2 * y + n % 4 / 2, 2 * x + n % 2);
        lemma_padded(v, w, h, pw, ph, 2 * y + n % 4 / 2, 2 * x + n % 2);
    }
    assert(c.data@ =~= want);
}

/// The twelve planes at 4:2:0 and 4:2:2: the luma phases, then the rows of the chroma planes.
proof fn lemma_packed_rows<T>(
    zero: Tensor<T>,
    luma: Seq<T>,
    u: Seq<T>,
    v: Seq<T>,
    w: int,
    h: int,
    split: bool,
    a: Tensor<T>,
    b: Tensor<T>,
    c: Tensor<T>,
)
    requires
        1 <= w,
        1 <= h,
        zero.is_of(12, tiles::ceil(h, 2), tiles::ceil(w, 2)),
        a.is_of(12, tiles::ceil(h, 2), tiles::ceil(w, 2)),
        b.is_of(12, tiles::ceil(h, 2), tiles::ceil(w, 2)),
        c.is_of(12, tiles::ceil(h, 2), tiles::ceil(w, 2)),
        ({
            let (ow, oh) = (tiles::ceil(w, 2), tiles::ceil(h, 2));
            let (pu, pv) = if split {
                (planes::padded(u, ow, h, ow, 2 * oh), planes::padded(v, ow, h, ow, 2 * oh))
            } else {
                (u, v)
            };
            &&& a.data@ == planes::unshuffled(
                zero,
                0,
                planes::padded(luma, w, h, 2 * ow, 2 * oh),
                2 * ow,
            )
            &&& b.data@ == with_rows(a, 4, pu, split)
            &&& c.data@ == with_rows(b, 8, pv, split)
        }),
    ensures
        split ==> c.data@ == packed(luma, w, h, u, v, tiles::ceil(w, 2), h, (1u8, 2u8)),
        !split ==> c.data@ == packed(
            luma,
            w,
            h,
            u,
            v,
            tiles::ceil(w, 2),
            tiles::ceil(h, 2),
            (2u8, 2u8),
        ),
{
    let (oh, ow) = (tiles::ceil(h, 2), tiles::ceil(w, 2));
    let (pw, ph) = (2 * ow, 2 * oh);
    let want = if split {
        packed(luma, w, h, u, v, ow, h, (1u8, 2u8))
    } else {
        packed(luma, w, h, u, v, ow, oh, (2u8, 2u8))
    };
    assert forall|p: int| 0 <= p < c.data@.len() implies c.data@[p] == #[trigger] want[p] by {
        planes::lemma_nonempty(12, oh, ow, c.data@.len() as int);
        tensor::lemma_parts_place(oh, ow, 12, p);
        let (n, y, x) = (p / ow / oh, p / ow % oh, p % ow);
        lemma_padded(luma, w, h, pw, ph, 2 * y + n % 4 / 2, 2 * x + n % 2);
        lemma_padded(u, ow, h, ow, ph, 2 * y + n % 4 / 2, x);
        lemma_padded(v, ow, h, ow, ph, 2 * y + n % 4 / 2, x);
    }
    assert(c.data@ =~= want);
}

/// The chroma input of the analysis transform: the four luma phases (its support information),
/// then the coded chroma, four U phases then four V phases at 4:4:4, U and V each repeated four
/// times at 4:2:0, and each chroma row phase repeated twice at 4:2:2. `zero` fills the planes
/// before they are written.
pub fn pack_chroma<T: Copy>(
    luma: &Vec<T>,
    w: usize,
    h: usize,
    u: &Vec<T>,
    v: &Vec<T>,
    ch: usize,
    cw: usize,
    meta: &SourceMeta,
    zero: T,
) -> (r: Result<Tensor<T>>)
    requires
        1 <= w,
        1 <= h,
        luma@.len() == w * h,
        u@.len() == cw * ch,
        v@.len() == cw * ch,
        12 * (w + 1) * (h + 1) <= usize::MAX,
    ensures
        ({
            let c = (meta.c_ver, meta.c_hor);
            match pack_error(w as int, h as int, cw as int, ch as int, c) {
                Some(e) => r == Err::<Tensor<T>, Error>(e),
                None => r matches Ok(t) && t.is_of(
                    12,
                    tiles::ceil(h as int, 2),
                    tiles::ceil(w as int, 2),
                ) && t.data@ == packed(
                    luma@,
                    w as int,
                    h as int,
                    u@,
                    v@,
                    cw as int,
                    ch as int,
                    c,
                ),
            }
        }),
{
    proof {
        assert(w + 1 <= 12 * (w + 1) * (h + 1)) by (nonlinear_arith)
            requires
                w >= 1,
                h >= 1,
        ;
        assert(h + 1 <= 12 * (w + 1) * (h + 1)) by (nonlinear_arith)
            requires
                w >= 1,
                h >= 1,
        ;
    }
    let (ow, oh): (usize, usize) = (tiles::div_up(w, 2), tiles::div_up(h, 2));
    let (pw, ph): (usize, usize) = (2 * ow, 2 * oh);
    proof {
        assert(12 * oh * ow <= 12 * (w + 1) * (h + 1)) by (nonlinear_arith)
            requires
                0 <= oh <= h,
                0 <= ow <= w,
        ;
        assert(12 * oh <= 12 * (w + 1) * (h + 1)) by (nonlinear_arith)
            requires
                0 <= oh <= h,
                w >= 1,
        ;
        assert(ph * pw <= 12 * (w + 1) * (h + 1)) by (nonlinear_arith)
            requires
                0 <= ph <= h + 1,
                0 <= pw <= w + 1,
        ;
        assert(ph * ow <= 12 * (w + 1) * (h + 1)) by (nonlinear_arith)
            requires
                0 <= ph <= h + 1,
                0 <= ow <= w + 1,
        ;
        assert(h * ow <= 12 * (w + 1) * (h + 1)) by (nonlinear_arith)
            requires
                0 <= h,
                0 <= ow <= w + 1,
        ;
    }
    let mut out: Tensor<T> = filled(12, oh, ow, zero);
    let ghost start = out;
    let yp: Vec<T> = planes::replicate_pad(luma, w, h, pw, ph);
    planes::unshuffle_into(&mut out, 0, &yp, ph, pw);
    let ghost first = out;
    if meta.c_ver == 1 && meta.c_hor == 1 {
        if ch != h || cw != w {
            return Err(Error::InvalidData("4:4:4 chroma is not at luma size"));
        }
        let up: Vec<T> = planes::replicate_pad(u, w, h, pw, ph);
        let vp: Vec<T> = planes::replicate_pad(v, w, h, pw, ph);
        planes::unshuffle_into(&mut out, 4, &up, ph, pw);
        let ghost second = out;
        planes::unshuffle_into(&mut out, 8, &vp, ph, pw);
        proof {
            lemma_packed_444(start, luma@, u@, v@, w as int, h as int, first, second, out);
        }
        Ok(out)
    } else if meta.c_ver == 2 && meta.c_hor == 2 {
        if ch != oh || cw != ow {
            return Err(Error::InvalidData("4:2:0 chroma is not at half size"));
        }
        proof {
            assert(cw * ch == ch * cw) by (nonlinear_arith);
        }
        rows_into(&mut out, 4, u, false);
        let ghost second = out;
        rows_into(&mut out, 8, v, false);
        proof {
            lemma_packed_rows(start, luma@, u@, v@, w as int, h as int, false, first, second, out);
        }
        Ok(out)
    } else if meta.c_ver == 1 && meta.c_hor == 2 {
        if ch != h || cw != ow {
            return Err(Error::InvalidData("4:2:2 chroma is not at full height"));
        }
        let up: Vec<T> = planes::replicate_pad(u, cw, ch, cw, ph);
        let vp: Vec<T> = planes::replicate_pad(v, cw, ch, cw, ph);
        rows_into(&mut out, 4, &up, true);
        let ghost second = out;
        rows_into(&mut out, 8, &vp, true);
        proof {
            lemma_packed_rows(start, luma@, u@, v@, w as int, h as int, true, first, second, out);
        }
        Ok(out)
    } else {
        Err(Error::Unsupported("coded chroma must be 4:4:4, 4:2:2 or 4:2:0"))
    }
}

} // verus!
