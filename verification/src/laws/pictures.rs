//! Pictures that are read, written and shown.

use vstd::prelude::*;

use crate::decoder::output;
use crate::decoder::output::{OutputKind, Picture, YuvImage};
use crate::encoder::colour;
use crate::encoder::colour::SourceImage;
use crate::encoder::yuv;
use crate::encoder::yuv::YuvLayout;
use crate::error::Error;
use crate::header::{ColourTransform, PictureHeader};
use crate::tensor::Tensor;

verus! {

/// The colours of a picture follow the stream's colour transform alone, whatever the chroma format
/// of the source: no transform leaves YUV, BT.709 gives RGB, and nothing else can be shown.
pub proof fn law_colours_follow_the_transform(hdr: PictureHeader)
    requires
        hdr.bit_depth == 8 || hdr.bit_depth == 10,
    ensures
        output::spec_output_kind(hdr) == Ok::<OutputKind, Error>(OutputKind::Yuv) <==>
            hdr.colour_transform is Plain,
        output::spec_output_kind(hdr) == Ok::<OutputKind, Error>(OutputKind::Rgb) <==>
            hdr.colour_transform is Bt709 && hdr.s_ver == 1 && hdr.s_hor == 1,
        output::spec_output_kind(hdr) is Err ==> hdr.colour_transform is Custom || (
        hdr.colour_transform is Bt709 && (hdr.s_ver != 1 || hdr.s_hor != 1)),
{
}

/// Only streams of 8 or 10 bit are shown.
pub proof fn law_shown_depths(hdr: PictureHeader)
    ensures
        output::spec_output_kind(hdr) is Ok ==> hdr.bit_depth == 8 || hdr.bit_depth == 10,
{
}

/// A source comes out in its own colours: the header that carries the format of a YUV source is
/// shown as YUV, and that of an RGB source as RGB.
pub proof fn law_sources_keep_their_colours(
    src: SourceImage,
    hdr: PictureHeader,
    given: (Option<u8>, Option<u8>),
)
    requires
        hdr.bit_depth == 8 || hdr.bit_depth == 10,
        colour::spec_subsampling(src) matches Ok(s) && colour::spec_resolve(
            s,
            src.spec_depth(),
            src.spec_transform(),
            given,
        ) matches Ok(m) && hdr.colour_transform == m.colour_transform && hdr.s_ver == m.s_ver
            && hdr.s_hor == m.s_hor,
    ensures
        src is Yuv ==> output::spec_output_kind(hdr) == Ok::<OutputKind, Error>(OutputKind::Yuv),
        src is Rgb ==> output::spec_output_kind(hdr) == Ok::<OutputKind, Error>(OutputKind::Rgb),
{
}

/// A picture that is shown has the size of the luma plane and the bit depth of the stream, and
/// holds the planes: as they are for YUV, and interleaved red, green, blue for RGB.
pub proof fn law_shown_picture_holds_its_planes(
    p: Picture,
    kind: OutputKind,
    depth: u8,
    y: Tensor<u16>,
    u: Tensor<u16>,
    v: Tensor<u16>,
)
    requires
        output::holds(p, kind, depth, y, u, v),
        y.is_of(1, y.h as int, y.w as int),
        u.is_of(1, u.h as int, u.w as int),
        v.is_of(1, v.h as int, v.w as int),
        kind == OutputKind::Rgb ==> u.h == y.h && u.w == y.w && v.h == y.h && v.w == y.w,
    ensures
        p is Yuv <==> kind == OutputKind::Yuv,
        p matches Picture::Yuv(i) ==> i.width == y.w && i.height == y.h && i.chroma_width == u.w
            && i.chroma_height == u.h && i.bit_depth == depth && i.y@ == y.data@ && i.u@ == u.data@
            && i.v@ == v.data@,
        p matches Picture::Rgb(i) ==> i.width == y.w && i.height == y.h && i.bit_depth == depth
            && i.data@.len() == 3 * y.data@.len() && forall|k: int|
            0 <= k < y.data@.len() ==> #[trigger] y.data@[k] == i.data@[3 * k] && u.data@[k]
                == i.data@[3 * k + 1] && v.data@[k] == i.data@[3 * k + 2],
{
    if p is Rgb {
        assert(u.data@.len() == y.data@.len() && v.data@.len() == y.data@.len());
        assert forall|k: int| 0 <= k < y.data@.len() implies #[trigger] y.data@[k]
            == p->Rgb_0.data@[3 * k] && u.data@[k] == p->Rgb_0.data@[3 * k + 1] && v.data@[k]
            == p->Rgb_0.data@[3 * k + 2] by {
            assert((3 * k) % 3 == 0 && (3 * k) / 3 == k);
            assert((3 * k + 1) % 3 == 1 && (3 * k + 1) / 3 == k);
            assert((3 * k + 2) % 3 == 2 && (3 * k + 2) / 3 == k);
        }
    }
}

/// Chroma planes stay where they have the source's format already, and are up-sampled only to a
/// source without sub-sampling, from planes that have half the columns and all or half the rows.
pub proof fn law_chroma_reaches_the_source_format(c: (u8, u8), s: (u8, u8))
    ensures
        output::spec_chroma_step(c, s) == Ok::<output::ChromaStep, Error>(output::ChromaStep::Keep)
            <==> c.0 == s.0 && c.1 == s.1,
        output::spec_chroma_step(c, s) == Ok::<output::ChromaStep, Error>(
            output::ChromaStep::Upsample,
        ) <==> s.0 == 1 && s.1 == 1 && c.1 == 2 && (c.0 == 1 || c.0 == 2),
{
}

/// Raw planes hold luma first, then both chroma planes, each sample in one byte at 8 bit and in two
/// bytes, the low one first, above.
pub proof fn law_raw_planes_in_order(img: YuvImage, k: int)
    requires
        img.bit_depth >= 8,
        0 <= k,
    ensures
        ({
            let raw = output::spec_raw(img);
            let (n, m) = (img.y@.len() as int, img.u@.len() as int);
            if img.bit_depth == 8 {
                &&& raw.len() == n + m + img.v@.len()
                &&& k < n ==> raw[k] == img.y@[k] % 256
                &&& k < m ==> raw[n + k] == img.u@[k] % 256
                &&& k < img.v@.len() ==> raw[n + m + k] == img.v@[k] % 256
            } else {
                &&& raw.len() == 2 * (n + m + img.v@.len())
                &&& k < n ==> raw[2 * k] + 256 * raw[2 * k + 1] == img.y@[k]
                &&& k < m ==> raw[2 * (n + k)] + 256 * raw[2 * (n + k) + 1] == img.u@[k]
                &&& k < img.v@.len() ==> raw[2 * (n + m + k)] + 256 * raw[2 * (n + m + k) + 1]
                    == img.v@[k]
            }
        }),
{
    assert((2 * k) % 2 == 0 && (2 * k) / 2 == k);
    assert((2 * k + 1) % 2 == 1 && (2 * k + 1) / 2 == k);
}

/// Three bytes stand next to each other in a name.
pub open spec fn shows(name: Seq<u8>, a: u8, b: u8, c: u8) -> bool {
    exists|i: int|
        0 <= i && i + 3 <= name.len() && #[trigger] name[i] == a && name[i + 1] == b && name[i + 2]
            == c
}

proof fn lemma_shows(name: Seq<u8>, a: u8, b: u8, c: u8)
    ensures
        yuv::occurs(name, seq![a, b, c]) <==> shows(name, a, b, c),
{
    let t = seq![a, b, c];
    if yuv::occurs(name, t) {
        let i = choose|i: int| #[trigger] yuv::stands_at(name, t, i);
        let part = name.subrange(i, i + 3);
        assert(part[0] == a && part[1] == b && part[2] == c);
        assert(name[i] == a && name[i + 1] == b && name[i + 2] == c);
    }
    if shows(name, a, b, c) {
        let i = choose|i: int|
            0 <= i && i + 3 <= name.len() && #[trigger] name[i] == a && name[i + 1] == b && name[i
                + 2] == c;
        assert(name.subrange(i, i + 3) =~= t);
        assert(yuv::stands_at(name, t, i));
    }
}

/// The chroma planes of a file follow the format in its name: `444` keeps the luma size, `420`
/// halves both sides, `422` halves the width alone, each half rounded up. Where the name holds more
/// than one, `444` counts before `420` and that before `422`; without any, both sides are halved.
pub proof fn law_chroma_follows_the_name(name: Seq<u8>, len: int, l: YuvLayout)
    requires
        yuv::spec_layout(name, len) == Ok::<YuvLayout, Error>(l),
    ensures
        ({
            let (f444, f420, f422) = (
                shows(name, 52, 52, 52),
                shows(name, 52, 50, 48),
                shows(name, 52, 50, 50),
            );
            &&& f444 ==> l.chroma_width == l.width && l.chroma_height == l.height
            &&& !f444 ==> 2 * l.chroma_width - 1 <= l.width <= 2 * l.chroma_width
            &&& !f444 && (f420 || !f422) ==> 2 * l.chroma_height - 1 <= l.height <= 2
                * l.chroma_height
            &&& !f444 && !f420 && f422 ==> l.chroma_height == l.height
        }),
{
    lemma_shows(name, 52, 52, 52);
    lemma_shows(name, 52, 50, 48);
    lemma_shows(name, 52, 50, 50);
}

/// A source that is read from a file has the sub-sampling that its name says: `420` halves both
/// sides and `422` the width alone, where there is anything to halve.
pub proof fn law_read_sources_have_their_subsampling(
    name: Seq<u8>,
    data: Seq<u8>,
    l: YuvLayout,
    img: YuvImage,
)
    requires
        yuv::spec_layout(name, data.len() as int) == Ok::<YuvLayout, Error>(l),
        yuv::read_from(img, l, data),
        img.width >= 2,
        img.height >= 2,
    ensures
        colour::spec_subsampling(SourceImage::Yuv(img)) == Ok::<(u8, u8), Error>(
            if shows(name, 52, 52, 52) {
                (1u8, 1u8)
            } else if shows(name, 52, 50, 48) {
                (2u8, 2u8)
            } else if shows(name, 52, 50, 50) {
                (1u8, 2u8)
            } else {
                (2u8, 2u8)
            },
        ),
{
    law_chroma_follows_the_name(name, data.len() as int, l);
}

/// A name without a chroma format that says `sRGB` is refused.
pub proof fn law_srgb_names_are_no_planes(name: Seq<u8>, len: int, i: int)
    requires
        !shows(name, 52, 52, 52),
        !shows(name, 52, 50, 48),
        !shows(name, 52, 50, 50),
        0 <= i && i + 4 <= name.len(),
        name[i] == 115 && name[i + 1] == 82 && name[i + 2] == 71 && name[i + 3] == 66,
    ensures
        yuv::spec_layout(name, len) is Err,
{
    lemma_shows(name, 52, 52, 52);
    lemma_shows(name, 52, 50, 48);
    lemma_shows(name, 52, 50, 50);
    let t = seq![115u8, 82u8, 71u8, 66u8];
    assert(name.subrange(i, i + 4) =~= t);
    assert(yuv::stands_at(name, t, i));
}

/// The planes of a file that is read stand one after the other, luma first, each sample in one byte
/// up to 8 bit and in two bytes, the low one first, above.
pub proof fn law_read_samples_in_order(img: YuvImage, l: YuvLayout, data: Seq<u8>, k: int)
    requires
        yuv::read_from(img, l, data),
        0 <= k,
    ensures
        ({
            let (n, m) = (img.width * img.height, img.chroma_width * img.chroma_height);
            if img.bit_depth <= 8 {
                &&& k < n ==> img.y@[k] == data[k]
                &&& k < m ==> img.u@[k] == data[n + k] && img.v@[k] == data[n + m + k]
            } else {
                &&& k < n ==> img.y@[k] == data[2 * k] + 256 * data[2 * k + 1]
                &&& k < m ==> img.u@[k] == data[2 * (n + k)] + 256 * data[2 * (n + k) + 1]
                &&& k < m ==> img.v@[k] == data[2 * (n + m + k)] + 256 * data[2 * (n + m + k) + 1]
            }
        }),
        img.y@.len() == img.width * img.height,
        img.u@.len() == img.chroma_width * img.chroma_height,
        img.v@.len() == img.chroma_width * img.chroma_height,
{
    let (n, m) = (img.width * img.height, img.chroma_width * img.chroma_height);
    assert(n >= 0 && m >= 0) by (nonlinear_arith)
        requires
            n == img.width * img.height,
            m == img.chroma_width * img.chroma_height,
            img.width >= 0,
            img.height >= 0,
            img.chroma_width >= 0,
            img.chroma_height >= 0,
    ;
    assert(n * 1 == n && (n + m) * 1 == n + m);
    assert(n * 2 == 2 * n && (n + m) * 2 == 2 * n + 2 * m);
}

/// The chroma factors of a source are those by which its chroma planes are smaller, rounded up.
pub proof fn law_factors_show_in_the_planes(src: SourceImage, f: (u8, u8))
    requires
        colour::spec_subsampling(src) == Ok::<(u8, u8), Error>(f),
    ensures
        src is Rgb ==> f.0 == 1 && f.1 == 1,
        1 <= f.0 <= f.1 <= 2,
        src matches SourceImage::Yuv(i) ==> {
            &&& f.0 * i.chroma_height - f.0 < i.height <= f.0 * i.chroma_height
            &&& f.1 * i.chroma_width - f.1 < i.width <= f.1 * i.chroma_width
        },
{
}

/// A YUV source whose chroma planes fit its format is recognised.
pub proof fn law_formats_are_recognised(img: YuvImage, v: int, h: int)
    requires
        (v == 1 && h == 1) || (v == 1 && h == 2) || (v == 2 && h == 2),
        v * img.chroma_height - v < img.height <= v * img.chroma_height,
        h * img.chroma_width - h < img.width <= h * img.chroma_width,
    ensures
        colour::spec_subsampling(SourceImage::Yuv(img)) is Ok,
{
}

/// A source is coded with its own factors, or with coarser ones that are given: never finer, never
/// in another format than 4:4:4, 4:2:2 and 4:2:0, and 4:2:2 never as 4:2:0.
pub proof fn law_coded_factors(
    s: (u8, u8),
    depth: u8,
    transform: ColourTransform,
    given: (Option<u8>, Option<u8>),
)
    ensures
        colour::spec_resolve(s, depth, transform, given) matches Ok(m) ==> {
            &&& m.bit_depth == depth && m.colour_transform == transform
            &&& m.s_ver == s.0 && m.s_hor == s.1
            &&& given.0 matches Some(c) ==> m.c_ver == c
            &&& given.1 matches Some(c) ==> m.c_hor == c
            &&& given.0 is None ==> m.c_ver == s.0
            &&& given.1 is None ==> m.c_hor == s.1
            &&& m.c_ver >= s.0 && m.c_hor >= s.1
            &&& m.c_hor == 2 && (m.c_ver == 1 || m.c_ver == 2) || m.c_hor == 1 && m.c_ver == 1
            &&& !(s.0 == 1 && s.1 == 2 && m.c_ver == 2)
        },
        s.0 == 1 && s.1 == 1 && (given.0 == Some(1u8) || given.0 == Some(2u8)) && given.1 == Some(
            2u8,
        ) ==> colour::spec_resolve(s, depth, transform, given) is Ok,
        1 <= s.0 <= s.1 <= 2 && given.0 is None && given.1 is None ==> colour::spec_resolve(
            s,
            depth,
            transform,
            given,
        ) is Ok,
{
}

/// The size and depth of a source are its picture's, and its colour transform says what it is.
pub proof fn law_sources_describe_themselves(src: SourceImage)
    ensures
        src matches SourceImage::Rgb(i) ==> src.spec_width() == i.width && src.spec_height()
            == i.height && src.spec_depth() == i.bit_depth && src.spec_transform() is Bt709,
        src matches SourceImage::Yuv(i) ==> src.spec_width() == i.width && src.spec_height()
            == i.height && src.spec_depth() == i.bit_depth && src.spec_transform() is Plain,
{
}

} // verus!
