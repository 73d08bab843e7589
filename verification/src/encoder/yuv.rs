//! Planar YUV files, whose names carry the picture size, bit depth and chroma format.

use vstd::prelude::*;
use vstd::slice::slice_subrange;
use vstd::string::*;

use crate::decoder::output;
use crate::decoder::output::YuvImage;
use crate::encoder::colour::SourceImage;
use crate::encoder::tiles;
use crate::error::{Error, Result};

verus! {

/// A decimal digit.
pub open spec fn is_digit(b: u8) -> bool {
    48 <= b <= 57
}

/// Where the run of digits that ends at `end` starts.
pub open spec fn run_start(b: Seq<u8>, end: int) -> int
    decreases end,
{
    if 0 < end <= b.len() && is_digit(b[end - 1]) {
        run_start(b, end - 1)
    } else {
        end
    }
}

/// Where the run of digits that starts at `start` ends.
pub open spec fn run_end(b: Seq<u8>, start: int) -> int
    decreases b.len() - start,
{
    if 0 <= start < b.len() && is_digit(b[start]) {
        run_end(b, start + 1)
    } else {
        start
    }
}

/// The number that the digits `b[from..to]` write.
pub open spec fn number(b: Seq<u8>, from: int, to: int) -> int
    decreases to - from,
{
    if to <= from {
        0
    } else {
        10 * number(b, from, to - 1) + (b[to - 1] - 48)
    }
}

/// `<digits>x<digits>` around position `i`.
pub open spec fn dims_at(b: Seq<u8>, i: int) -> Option<(int, int)> {
    let (from, to) = (run_start(b, i), run_end(b, i + 1));
    let (w, h) = (number(b, from, i), number(b, i + 1, to));
    if b[i] == 120 && from < i && i + 1 < to && w <= usize::MAX && h <= usize::MAX {
        Some((w, h))
    } else {
        None
    }
}

/// The first `<digits>x<digits>` at or behind position `i`.
pub open spec fn spec_find_dims(b: Seq<u8>, i: int) -> Option<(int, int)>
    decreases b.len() - i,
{
    if !(0 <= i < b.len()) {
        None
    } else if dims_at(b, i) is Some {
        dims_at(b, i)
    } else {
        spec_find_dims(b, i + 1)
    }
}

/// The text `t` stands at position `i`.
pub open spec fn stands_at(b: Seq<u8>, t: Seq<u8>, i: int) -> bool {
    0 <= i && i + t.len() <= b.len() && b.subrange(i, i + t.len()) == t
}

/// The text `t` occurs.
pub open spec fn occurs(b: Seq<u8>, t: Seq<u8>) -> bool {
    exists|i: int| #[trigger] stands_at(b, t, i)
}

/// The first `<digits>bit` at or behind position `i`; none where its number is above 255.
pub open spec fn spec_find_bits(b: Seq<u8>, i: int) -> Option<int>
    decreases b.len() - i,
{
    if !(0 <= i < b.len()) {
        None
    } else if stands_at(b, seq![98u8, 105u8, 116u8], i) && run_start(b, i) < i {
        let n = number(b, run_start(b, i), i);
        if n <= 255 {
            Some(n)
        } else {
            None
        }
    } else {
        spec_find_bits(b, i + 1)
    }
}

/// Where the file name of a path starts: behind its last `/` or `\`.
pub open spec fn name_start(b: Seq<u8>, i: int) -> int
    decreases i,
{
    if i <= 0 || b[i - 1] == 47 || b[i - 1] == 92 {
        i
    } else {
        name_start(b, i - 1)
    }
}

/// Sizes and depth of a planar YUV picture.
pub struct YuvLayout {
    pub width: int,
    pub height: int,
    pub chroma_width: int,
    pub chroma_height: int,
    pub bit_depth: int,
}

impl YuvLayout {
    /// Bytes per sample.
    pub open spec fn step(self) -> int {
        if self.bit_depth > 8 {
            2
        } else {
            1
        }
    }

    /// Samples of the three planes.
    pub open spec fn samples(self) -> int {
        self.width * self.height + 2 * (self.chroma_width * self.chroma_height)
    }
}

/// The chroma size that a file name gives; the formats are looked for in this order.
pub open spec fn spec_chroma_size(name: Seq<u8>, w: int, h: int) -> Option<(int, int)> {
    if occurs(name, seq![52u8, 52u8, 52u8]) {
        Some((w, h))
    } else if occurs(name, seq![52u8, 50u8, 48u8]) {
        Some((tiles::ceil(w, 2), tiles::ceil(h, 2)))
    } else if occurs(name, seq![52u8, 50u8, 50u8]) {
        Some((tiles::ceil(w, 2), h))
    } else if occurs(name, seq![115u8, 82u8, 71u8, 66u8]) {
        None
    } else {
        Some((tiles::ceil(w, 2), tiles::ceil(h, 2)))
    }
}

/// What a file name and the length of its file say of the picture.
pub open spec fn spec_layout(name: Seq<u8>, len: int) -> Result<YuvLayout> {
    match spec_find_dims(name, 0) {
        None => Err(Error::InvalidArgument("yuv input: no <width>x<height> in the file name")),
        Some((w, h)) => {
            let depth = match spec_find_bits(name, 0) {
                Some(n) => n,
                None => 8,
            };
            if depth == 0 || depth > 16 {
                Err(Error::InvalidArgument("yuv input: bit depth outside 1..=16"))
            } else {
                match spec_chroma_size(name, w, h) {
                    None => Err(
                        Error::InvalidArgument(
                            "yuv input: chroma format in the file name is not 444, 420 or 422",
                        ),
                    ),
                    Some((cw, ch)) => {
                        let l = YuvLayout {
                            width: w,
                            height: h,
                            chroma_width: cw,
                            chroma_height: ch,
                            bit_depth: depth,
                        };
                        if len < l.samples() * l.step() {
                            Err(Error::InvalidArgument("yuv input: file shorter than the planes"))
                        } else {
                            Ok(l)
                        }
                    },
                }
            }
        },
    }
}

/// `n` samples from byte `at` on: a byte each, or two with the low one first.
pub open spec fn spec_samples(data: Seq<u8>, at: int, n: int, step: int) -> Seq<u16> {
    Seq::new(
        n as nat,
        |i: int|
            if step == 1 {
                data[at + i] as u16
            } else {
                (data[at + 2 * i] + 256 * data[at + 2 * i + 1]) as u16
            },
    )
}

/// A picture has this layout and holds the planes of a file, in Y-U-V order.
pub open spec fn read_from(img: YuvImage, l: YuvLayout, data: Seq<u8>) -> bool {
    let luma = l.width * l.height;
    let chroma = l.chroma_width * l.chroma_height;
    let step = l.step();
    &&& img.width == l.width
    &&& img.height == l.height
    &&& img.chroma_width == l.chroma_width
    &&& img.chroma_height == l.chroma_height
    &&& img.bit_depth == l.bit_depth
    &&& img.y@ == spec_samples(data, 0, luma, step)
    &&& img.u@ == spec_samples(data, luma * step, chroma, step)
    &&& img.v@ == spec_samples(data, (luma + chroma) * step, chroma, step)
}

fn digit(b: u8) -> (d: bool)
    ensures
        d == is_digit(b),
{
    b >= 48 && b <= 57
}

/// A number grows with its digits.
proof fn lemma_number_grows(b: Seq<u8>, from: int, mid: int, to: int)
    requires
        0 <= from <= mid <= to <= b.len(),
        forall|i: int| from <= i < to ==> is_digit(#[trigger] b[i]),
    ensures
        0 <= number(b, from, mid) <= number(b, from, to),
    decreases to - from,
{
    if mid < to {
        lemma_number_grows(b, from, mid, to - 1);
        assert(is_digit(b[to - 1]));
    } else if from < to {
        lemma_number_grows(b, from, from, to - 1);
        assert(is_digit(b[to - 1]));
    }
}

/// The number that digits write, where it fits.
fn parse(b: &[u8], from: usize, to: usize) -> (n: Option<usize>)
    requires
        from <= to <= b@.len(),
        forall|i: int| from <= i < to ==> is_digit(#[trigger] b@[i]),
    ensures
        match n {
            Some(v) => v == number(b@, from as int, to as int),
            None => number(b@, from as int, to as int) > usize::MAX,
        },
{
    let mut v: usize = 0;
    let mut i: usize = from;
    while i < to
        invariant
            from <= i <= to,
            to <= b@.len(),
            forall|i: int| from <= i < to ==> is_digit(#[trigger] b@[i]),
            v == number(b@, from as int, i as int),
        decreases to - i,
    {
        assert(is_digit(b@[i as int]));
        let d: usize = (b[i] - 48) as usize;
        proof {
            lemma_number_grows(b@, from as int, i + 1, to as int);
        }
        if v > usize::MAX / 10 || v * 10 > usize::MAX - d {
            return None;
        }
        v = v * 10 + d;
        i = i + 1;
    }
    Some(v)
}

/// Where the run of digits that ends at `end` starts.
fn find_start(b: &[u8], end: usize) -> (start: usize)
    requires
        end <= b@.len(),
    ensures
        start == run_start(b@, end as int),
        start <= end,
        forall|i: int| start <= i < end ==> is_digit(#[trigger] b@[i]),
{
    let mut start: usize = end;
    while start > 0 && digit(b[start - 1])
        invariant
            start <= end,
            end <= b@.len(),
            run_start(b@, start as int) == run_start(b@, end as int),
            forall|i: int| start <= i < end ==> is_digit(#[trigger] b@[i]),
        decreases start,
    {
        start = start - 1;
    }
    start
}

/// Where the run of digits that starts at `start` ends.
fn find_end(b: &[u8], start: usize) -> (end: usize)
    requires
        start <= b@.len(),
    ensures
        end == run_end(b@, start as int),
        start <= end <= b@.len(),
        forall|i: int| start <= i < end ==> is_digit(#[trigger] b@[i]),
{
    let mut end: usize = start;
    while end < b.len() && digit(b[end])
        invariant
            start <= end,
            end <= b@.len(),
            run_end(b@, end as int) == run_end(b@, start as int),
            forall|i: int| start <= i < end ==> is_digit(#[trigger] b@[i]),
        decreases b@.len() - end,
    {
        end = end + 1;
    }
    end
}

/// The first `<digits>x<digits>` of a name.
pub fn find_dims(b: &[u8]) -> (r: Option<(usize, usize)>)
    ensures
        match r {
            Some((w, h)) => spec_find_dims(b@, 0) == Some((w as int, h as int)),
            None => spec_find_dims(b@, 0) is None,
        },
{
    let mut i: usize = 0;
    while i < b.len()
        invariant
            i <= b@.len(),
            spec_find_dims(b@, 0) == spec_find_dims(b@, i as int),
        decreases b@.len() - i,
    {
        if b[i] == 120 {
            let from: usize = find_start(b, i);
            let to: usize = find_end(b, i + 1);
            if from < i && i + 1 < to {
                if let Some(w) = parse(b, from, i) {
                    if let Some(h) = parse(b, i + 1, to) {
                        return Some((w, h));
                    }
                }
            }
        }
        i = i + 1;
    }
    None
}

/// The text `t` stands at position `i`.
fn text_at(b: &[u8], t: &[u8], i: usize) -> (r: bool)
    requires
        i <= b@.len(),
    ensures
        r == stands_at(b@, t@, i as int),
{
    let len: usize = b.len();
    if t.len() > len - i {
        return false;
    }
    let mut k: usize = 0;
    while k < t.len()
        invariant
            k <= t@.len(),
            len == b@.len(),
            i + t@.len() <= b@.len(),
            forall|j: int| 0 <= j < k ==> b@[i + j] == #[trigger] t@[j],
        decreases t@.len() - k,
    {
        if b[i + k] != t[k] {
            proof {
                assert(b@.subrange(i as int, i + t@.len())[k as int] != t@[k as int]);
            }
            return false;
        }
        k = k + 1;
    }
    proof {
        assert(b@.subrange(i as int, i + t@.len()) =~= t@);
    }
    true
}

/// Whether the text `t` occurs.
fn has_text(b: &[u8], t: &[u8]) -> (r: bool)
    ensures
        r == occurs(b@, t@),
{
    let mut i: usize = 0;
    while i < b.len()
        invariant
            i <= b@.len(),
            forall|j: int| 0 <= j < i ==> !#[trigger] stands_at(b@, t@, j),
        decreases b@.len() - i,
    {
        if text_at(b, t, i) {
            return true;
        }
        i = i + 1;
    }
    text_at(b, t, i)
}

/// The first `<digits>bit` of a name.
pub fn find_bits(b: &[u8]) -> (r: Option<u8>)
    ensures
        match r {
            Some(n) => spec_find_bits(b@, 0) == Some(n as int),
            None => spec_find_bits(b@, 0) is None,
        },
{
    let bit: [u8; 3] = [98, 105, 116];
    let mut i: usize = 0;
    while i < b.len()
        invariant
            i <= b@.len(),
            bit@ == seq![98u8, 105u8, 116u8],
            spec_find_bits(b@, 0) == spec_find_bits(b@, i as int),
        decreases b@.len() - i,
    {
        if text_at(b, bit.as_slice(), i) {
            let from: usize = find_start(b, i);
            if from < i {
                return match parse(b, from, i) {
                    Some(n) => if n <= 255 {
                        Some(n as u8)
                    } else {
                        None
                    },
                    None => None,
                };
            }
        }
        i = i + 1;
    }
    None
}

/// The file name of a path: what stands behind its last `/` or `\`.
pub fn file_name(path: &[u8]) -> (name: &[u8])
    ensures
        name@ == path@.skip(name_start(path@, path@.len() as int)),
{
    let len: usize = path.len();
    let mut i: usize = len;
    while i > 0 && path[i - 1] != 47 && path[i - 1] != 92
        invariant
            i <= len,
            len == path@.len(),
            name_start(path@, i as int) == name_start(path@, len as int),
        decreases i,
    {
        i = i - 1;
    }
    proof {
        assert(path@.skip(i as int) =~= path@.subrange(i as int, len as int));
    }
    slice_subrange(path, i, len)
}

/// The chroma size that a file name gives.
fn chroma_size(name: &[u8], w: usize, h: usize) -> (r: Option<(usize, usize)>)
    ensures
        match r {
            Some((cw, ch)) => spec_chroma_size(name@, w as int, h as int) == Some(
                (cw as int, ch as int),
            ) && cw <= w && ch <= h,
            None => spec_chroma_size(name@, w as int, h as int) is None,
        },
{
    let (t444, t420, t422): ([u8; 3], [u8; 3], [u8; 3]) = ([52, 52, 52], [52, 50, 48], [52, 50, 50]);
    let srgb: [u8; 4] = [115, 82, 71, 66];
    proof {
        assert(t444@ =~= seq![52u8, 52u8, 52u8]);
        assert(t420@ =~= seq![52u8, 50u8, 48u8]);
        assert(t422@ =~= seq![52u8, 50u8, 50u8]);
        assert(srgb@ =~= seq![115u8, 82u8, 71u8, 66u8]);
    }
    let (hw, hh): (usize, usize) = (tiles::div_up(w, 2), tiles::div_up(h, 2));
    if has_text(name, t444.as_slice()) {
        Some((w, h))
    } else if has_text(name, t420.as_slice()) {
        Some((hw, hh))
    } else if has_text(name, t422.as_slice()) {
        Some((hw, h))
    } else if has_text(name, srgb.as_slice()) {
        None
    } else {
        Some((hw, hh))
    }
}

/// `n` samples from byte `at` on.
fn read_samples(data: &[u8], at: usize, n: usize, step: usize) -> (out: Vec<u16>)
    requires
        step == 1 || step == 2,
        at + n * step <= data@.len(),
    ensures
        out@ == spec_samples(data@, at as int, n as int, step as int),
{
    let mut out: Vec<u16> = Vec::new();
    let len: usize = data.len();
    while out.len() < n
        invariant
            out@.len() <= n,
            step == 1 || step == 2,
            len == data@.len(),
            at + n * step <= len,
            out@ == spec_samples(data@, at as int, n as int, step as int).take(out@.len() as int),
        decreases n - out@.len(),
    {
        let i: usize = out.len();
        let ghost want = spec_samples(data@, at as int, n as int, step as int);
        let v: u16 = if step == 1 {
            data[at + i] as u16
        } else {
            data[at + 2 * i] as u16 + 256 * data[at + 2 * i + 1] as u16
        };
        proof {
            assert(want.take(i + 1) =~= want.take(i as int).push(v));
        }
        out.push(v);
    }
    proof {
        let want = spec_samples(data@, at as int, n as int, step as int);
        assert(want.take(n as int) =~= want);
    }
    out
}

impl SourceImage {
    /// A planar YUV file whose name carries the picture size, bit depth and chroma format:
    /// `WxH`, `Nbit` and `444` / `420` / `422`, in the file name only, never in directory names
    /// (defaults 8 bit, 4:2:0). Samples are 1 byte up to 8 bit, little-endian `u16` above, planes
    /// in Y-U-V order.
    pub fn read_yuv(filename: &str, data: &[u8]) -> (r: Result<Self>)
        ensures
            ({
                let path = filename.spec_bytes();
                let name = path.skip(name_start(path, path.len() as int));
                match spec_layout(name, data@.len() as int) {
                    Err(e) => r == Err::<SourceImage, Error>(e),
                    Ok(l) => r matches Ok(SourceImage::Yuv(img)) && read_from(img, l, data@),
                }
            }),
    {
        let name: &[u8] = file_name(filename.as_bytes());
        let (w, h): (usize, usize) = match find_dims(name) {
            Some(d) => d,
            None => {
                return Err(
                    Error::InvalidArgument("yuv input: no <width>x<height> in the file name"),
                );
            },
        };
        let bit_depth: u8 = match find_bits(name) {
            Some(n) => n,
            None => 8,
        };
        if bit_depth == 0 || bit_depth > 16 {
            return Err(Error::InvalidArgument("yuv input: bit depth outside 1..=16"));
        }
        let (cw, ch): (usize, usize) = match chroma_size(name, w, h) {
            Some(c) => c,
            None => {
                return Err(
                    Error::InvalidArgument(
                        "yuv input: chroma format in the file name is not 444, 420 or 422",
                    ),
                );
            },
        };
        let step: usize = if bit_depth > 8 { 2 } else { 1 };
        let len: usize = data.len();
        let ghost (luma, chroma) = (w * h, cw * ch);
        proof {
            assert(0 <= chroma <= luma) by (nonlinear_arith)
                requires
                    luma == w * h,
                    chroma == cw * ch,
                    0 <= cw <= w,
                    0 <= ch <= h,
            ;
            assert(luma <= 0xffff_ffff_ffff_ffff * 0xffff_ffff_ffff_ffff) by (nonlinear_arith)
                requires
                    luma == w * h,
                    0 <= w <= 0xffff_ffff_ffff_ffff,
                    0 <= h <= 0xffff_ffff_ffff_ffff,
            ;
            assert((luma + 2 * chroma) * step == luma * step + 2 * (chroma * step))
                by (nonlinear_arith);
            assert(chroma <= chroma * step && luma <= luma * step) by (nonlinear_arith)
                requires
                    1 <= step,
                    0 <= chroma,
                    0 <= luma,
            ;
        }
        if w as u128 * h as u128 > len as u128 {
            return Err(Error::InvalidArgument("yuv input: file shorter than the planes"));
        }
        let (n, m): (usize, usize) = (w * h, cw * ch);
        if (n as u128 + 2 * m as u128) * step as u128 > len as u128 {
            return Err(Error::InvalidArgument("yuv input: file shorter than the planes"));
        }
        proof {
            assert((luma + chroma) * step == luma * step + chroma * step) by (nonlinear_arith);
        }
        let y: Vec<u16> = read_samples(data, 0, n, step);
        let u: Vec<u16> = read_samples(data, n * step, m, step);
        let v: Vec<u16> = read_samples(data, (n + m) * step, m, step);
        Ok(
            SourceImage::Yuv(
                YuvImage {
                    width: w,
                    height: h,
                    chroma_width: cw,
                    chroma_height: ch,
                    bit_depth,
                    y,
                    u,
                    v,
                },
            ),
        )
    }
}

/// The layout of a picture.
pub open spec fn layout_of(img: YuvImage) -> YuvLayout {
    YuvLayout {
        width: img.width as int,
        height: img.height as int,
        chroma_width: img.chroma_width as int,
        chroma_height: img.chroma_height as int,
        bit_depth: img.bit_depth as int,
    }
}

/// A picture of 8 bit or more, written as raw planes, is read as the same picture.
pub proof fn law_raw_planes_round_trip(img: YuvImage)
    requires
        img.bit_depth >= 8,
        img.y@.len() == img.width * img.height,
        img.u@.len() == img.chroma_width * img.chroma_height,
        img.v@.len() == img.chroma_width * img.chroma_height,
        img.bit_depth == 8 ==> fits_bytes(img.y@) && fits_bytes(img.u@) && fits_bytes(img.v@),
    ensures
        read_from(img, layout_of(img), output::spec_raw(img)),
        output::spec_raw(img).len() == layout_of(img).samples() * layout_of(img).step(),
{
    let l = layout_of(img);
    let (n, m, step) = (l.width * l.height, l.chroma_width * l.chroma_height, l.step());
    let (a, b, c) = (
        output::plane_bytes(img.y@, img.bit_depth),
        output::plane_bytes(img.u@, img.bit_depth),
        output::plane_bytes(img.v@, img.bit_depth),
    );
    let raw = output::spec_raw(img);
    assert(n * step == a.len() && m * step == b.len() && m * step == c.len());
    assert((n + m) * step == n * step + m * step) by (nonlinear_arith);
    assert((n + 2 * m) * step == n * step + 2 * (m * step)) by (nonlinear_arith);
    lemma_plane_read(img.y@, img.bit_depth, raw, 0);
    lemma_plane_read(img.u@, img.bit_depth, raw, n * step);
    lemma_plane_read(img.v@, img.bit_depth, raw, (n + m) * step);
}

/// Every sample fits a byte.
pub open spec fn fits_bytes(plane: Seq<u16>) -> bool {
    forall|i: int| 0 <= i < plane.len() ==> #[trigger] plane[i] <= 255
}

/// A plane is read back from where its bytes stand.
proof fn lemma_plane_read(plane: Seq<u16>, bit_depth: u8, raw: Seq<u8>, at: int)
    requires
        bit_depth >= 8,
        bit_depth == 8 ==> fits_bytes(plane),
        0 <= at,
        at + output::plane_bytes(plane, bit_depth).len() <= raw.len(),
        forall|i: int|
            0 <= i < output::plane_bytes(plane, bit_depth).len() ==> raw[at + i]
                == #[trigger] output::plane_bytes(plane, bit_depth)[i],
    ensures
        spec_samples(
            raw,
            at,
            plane.len() as int,
            if bit_depth > 8 {
                2
            } else {
                1
            },
        ) == plane,
{
    let bytes = output::plane_bytes(plane, bit_depth);
    let step: int = if bit_depth > 8 {
        2
    } else {
        1
    };
    let got = spec_samples(raw, at, plane.len() as int, step);
    assert forall|i: int| 0 <= i < plane.len() implies got[i] == #[trigger] plane[i] by {
        if step == 1 {
            assert(raw[at + i] == bytes[i]);
        } else {
            assert(raw[at + 2 * i] == bytes[2 * i]);
            assert(raw[at + (2 * i + 1)] == bytes[2 * i + 1]);
            assert((2 * i + 1) / 2 == i && (2 * i) / 2 == i);
        }
    }
    assert(got =~= plane);
}

} // verus!
