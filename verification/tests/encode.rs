//! Parameters, sources, rate search and filter decisions of an encode.

use zenjpegai::area::Area;
use zenjpegai::decoder::{RgbImage, YuvImage};
use zenjpegai::encoder::colour::{SourceImage, SourceMeta};
use zenjpegai::encoder::commit::committed_whole;
use zenjpegai::encoder::filters::efe_linear::{
    check_sizes, chroma_channel_phase, region_extent, search_plan, search_space, wants_upsampled,
    PlaneSizes, SplitSearch,
};
use zenjpegai::encoder::filters::efe_nonlinear::{
    assemble_header, block_size, check_input, downsample, mask_value, tile_size, TileSolve,
    TriedMask, TriedMasks,
};
use zenjpegai::encoder::filters::icci::{
    candidates, enc_tile_layout, select_plan, ChromaGain, EicciLoss, TileChoice,
};
use zenjpegai::encoder::filters::weights::{
    assemble_set, empty_set, filter_header, raw_set, PlaneDecision,
};
use zenjpegai::encoder::pack::{check_planes, coded_size, pack_chroma};
use zenjpegai::encoder::params::{
    check_params, clip_beta, coded_header, picture_header, region_counts, tool_header, EncodeParams,
    RegionMode, SideInfo, BDL_MAX, BDL_MIN,
};
use zenjpegai::encoder::rate::{
    BetaSearch, ModelSearch, SearchStep, Settled, BDL_SEARCH_RANGE,
};
use zenjpegai::encoder::yuv::{file_name, find_bits, find_dims};
use zenjpegai::error::Error;
use zenjpegai::header::{ColourTransform, IcciHeader, OperatingPoint, ToolHeader};
use zenjpegai::planes::PlaneSize;
use zenjpegai::regions::{decoded_whole, region_core};
use zenjpegai::tensor::Tensor;

fn tensor<T>(c: usize, h: usize, w: usize, f: impl Fn(usize) -> T) -> Tensor<T> {
    Tensor { c, h, w, data: (0..c * h * w).map(f).collect() }
}

/// The rates that the search compares, around its decisions.
fn search_beta(target: f64, range: (i32, i32), mut bpp_at: impl FnMut(i32) -> f64) -> i32 {
    let (mut tol_min, mut tol_max) = (-0.01, 0.01);
    let mut s = BetaSearch::new(range);
    let mut known: Vec<(i32, f64)> = Vec::new();
    let (mut base, mut low, mut high) = (0.0, 0.0, 0.0);
    let (mut up, mut best_bits, mut stage) = (false, 0.0, 0);
    loop {
        let bits = match s.step() {
            SearchStep::Done(b) => return b,
            SearchStep::Measure(b) => {
                let v = bpp_at(b);
                known.push((b, v));
                v
            }
            SearchStep::Recall(b) => known.iter().find(|k| k.0 == b).unwrap().1,
            SearchStep::Interpolate => {
                up = base < target;
                best_bits = if up { f64::INFINITY } else { f64::NEG_INFINITY };
                let (mut from, mut to) = range;
                if up {
                    (tol_max, from, low) = (0.0, 0, base);
                } else {
                    (tol_min, to, high) = (0.0, 0, base);
                    if (target - 0.12).abs() < 1e-12 {
                        tol_max -= 0.03;
                    }
                }
                let now = if (high - low).abs() < f64::EPSILON || low <= 0.0 || high <= 0.0 {
                    0
                } else {
                    (f64::from(to - from) * (libm::log(target) - libm::log(low))
                        / (libm::log(high) - libm::log(low))
                        + f64::from(from)) as i32
                };
                s.window(now);
                continue;
            }
        };
        match stage {
            0 => {
                base = bits;
                let mismatch = (bits - target) / target;
                s.base((tol_min..=tol_max).contains(&mismatch));
            }
            1 => {
                low = bits;
                s.low_end();
            }
            2 => {
                high = bits;
                s.high_end();
            }
            _ => {
                let mismatch = (bits - target) / target;
                let inside = mismatch <= tol_max && mismatch >= tol_min;
                let better = inside && if up { bits < best_bits } else { bits > best_bits };
                if better {
                    best_bits = bits;
                }
                let edge = target * (1.0 + if up { tol_min } else { tol_max });
                s.narrow(better, (bits - edge) / edge > 0.0);
            }
        }
        stage += 1;
    }
}

/// A monotone toy rate curve: `bpp = exp(beta / 400)`. The search must land inside the tolerance
/// and never repeat a displacement.
fn run(target: f64) -> (i32, f64, usize) {
    let mut seen: Vec<i32> = Vec::new();
    let range = BDL_SEARCH_RANGE[1];
    let beta = search_beta(target, range, |b| {
        assert!(!seen.contains(&b), "displacement {b} tried twice");
        seen.push(b);
        libm::exp(f64::from(b.clamp(range.0, range.1)) / 400.0)
    });
    let bpp = libm::exp(f64::from(beta.clamp(range.0, range.1)) / 400.0);
    (beta, bpp, seen.len())
}

/// `exp(beta / 400)` over model 1's range reaches 0.330 .. 1.911.
#[test]
fn hits_the_target_within_tolerance() {
    for &target in &[0.4, 0.6, 0.9, 1.2, 1.8] {
        let (beta, bpp, trials) = run(target);
        let mismatch = (bpp - target) / target;
        assert!(
            mismatch.abs() <= 0.011,
            "target {target}: beta {beta} gives {bpp} ({mismatch})"
        );
        assert!(trials < 14, "target {target}: {trials} trials");
    }
}

/// A target the model cannot reach lands on the end of its range, not on an error.
#[test]
fn an_unreachable_target_saturates() {
    let (beta, bpp, _) = run(0.25);
    assert_eq!(beta, BDL_SEARCH_RANGE[1].0);
    assert!(bpp > 0.25);
    let (beta, bpp, _) = run(3.0);
    assert_eq!(beta, BDL_SEARCH_RANGE[1].1);
    assert!(bpp < 3.0);
}

#[test]
fn a_target_already_met_costs_one_trial() {
    let mut n = 0;
    let beta = search_beta(1.0, BDL_SEARCH_RANGE[2], |_| {
        n += 1;
        1.0
    });
    assert_eq!((beta, n), (0, 1));
}

#[test]
fn parameters_are_checked() {
    let p = EncodeParams::default();
    assert_eq!(check_params(560, 888, &p), Ok(p.model_id as usize));
    assert!(check_params(63, 888, &p).is_err());
    assert!(check_params(560, 888, &EncodeParams { model_id: 4, ..p }).is_err());
    assert_eq!((clip_beta(-5000), clip_beta(3), clip_beta(5000)), (BDL_MIN, 3, BDL_MAX));
}

#[test]
fn headers_of_an_encode_conform() {
    for op in [OperatingPoint::Sop, OperatingPoint::Bop, OperatingPoint::Hop] {
        let p = EncodeParams { op, regions: Some(RegionMode::Dependent), ..Default::default() };
        let h = picture_header(2096, 1400, 1, [7, -7], &p);
        h.check_conformance().unwrap();
        assert_eq!(h.synthesis_transforms[0], op);
        assert_eq!(h.beta_displacement_log, [7, -7]);
        let r = h.regions.unwrap();
        assert_eq!(Some((r.num_ver, r.num_hor)), region_counts(1400, 2096));
        assert!(h.write().is_ok());
    }
    assert_eq!(region_counts(888, 560), None);
}

fn rgb(w: usize, h: usize) -> RgbImage {
    RgbImage { width: w, height: h, bit_depth: 8, data: vec![7; 3 * w * h] }
}

fn yuv(w: usize, h: usize, cw: usize, ch: usize) -> YuvImage {
    YuvImage {
        width: w,
        height: h,
        chroma_width: cw,
        chroma_height: ch,
        bit_depth: 10,
        y: vec![1; w * h],
        u: vec![2; cw * ch],
        v: vec![3; cw * ch],
    }
}

#[test]
fn sources_say_their_format() {
    let s = SourceImage::from(rgb(5, 4));
    assert_eq!((s.width(), s.height(), s.bit_depth()), (5, 4, 8));
    assert_eq!(s.subsampling(), Ok((1, 1)));
    let m = s.meta(None, None).unwrap();
    assert_eq!(m.colour_transform, ColourTransform::Bt709);
    let s = SourceImage::from(yuv(5, 4, 3, 2));
    assert_eq!(s.subsampling(), Ok((2, 2)));
    assert_eq!(s.meta(None, None).unwrap().bit_depth, 10);
    assert!(SourceImage::from(yuv(5, 4, 1, 1)).subsampling().is_err());
}

#[test]
fn coded_formats_are_resolved() {
    let m = SourceMeta::resolve(2, 2, 8, ColourTransform::Plain, None, None).unwrap();
    assert_eq!((m.s_ver, m.s_hor), (2, 2));
    assert!(SourceMeta::resolve(2, 2, 8, ColourTransform::Plain, Some(1), Some(1)).is_err());
    assert!(SourceMeta::resolve(1, 1, 8, ColourTransform::Bt709, Some(3), None).is_err());
}

#[test]
fn raw_pictures_are_read() {
    assert_eq!(find_dims(b"clip_16x8_10bit.yuv"), Some((16, 8)));
    assert_eq!(find_dims(b"clip.yuv"), None);
    assert_eq!(find_bits(b"clip_16x8_10bit.yuv"), Some(10));
    assert_eq!(find_bits(b"bits_16x8_12bit.yuv"), Some(12));
    assert_eq!(find_bits(b"clip.yuv"), None);
    assert_eq!(file_name(b"a/b/c.yuv"), b"c.yuv");
    let data: Vec<u8> = (0..4 * 2 * 3).map(|i| i as u8).collect();
    match SourceImage::read_yuv("d/x_4x2_8bit_444.yuv", &data).unwrap() {
        SourceImage::Yuv(y) => {
            assert_eq!((y.width, y.height, y.chroma_width, y.chroma_height), (4, 2, 4, 2));
            assert_eq!((y.y[7], y.u[0], y.v[7]), (7, 8, 23));
        }
        SourceImage::Rgb(_) => unreachable!(),
    }
    assert!(SourceImage::read_yuv("x.yuv", &data).is_err());
    assert!(SourceImage::read_yuv("d/x_4x2_8bit_444.yuv", &data[1..]).is_err());
}

#[test]
fn planes_are_packed_for_analysis() {
    let s = SourceImage::from(yuv(4, 4, 2, 2));
    assert!(check_planes(&s).is_ok());
    let mut short = yuv(4, 4, 2, 2);
    short.y.pop();
    assert!(check_planes(&SourceImage::from(short)).is_err());
    let meta = s.meta(None, None).unwrap();
    assert_eq!(coded_size(2, 2, &meta), Ok((2, 2)));
    let full = SourceMeta::resolve(1, 1, 8, ColourTransform::Bt709, Some(2), Some(2)).unwrap();
    assert_eq!(coded_size(5, 4, &full), Ok((3, 2)));
    let luma: Vec<u16> = (0..16).collect();
    let t = pack_chroma(&luma, 4, 4, &vec![100; 4], &vec![200; 4], 2, 2, &meta, 0).unwrap();
    assert_eq!((t.c, t.h, t.w), (12, 2, 2));
    assert_eq!(&t.data[..8], [0, 2, 8, 10, 1, 3, 9, 11]);
    assert!(t.data[16..32].iter().all(|&v| v == 100) && t.data[32..].iter().all(|&v| v == 200));
}

/// `Y[::s_ver, ::s_hor]` with a replicate pad on odd sizes.
#[test]
fn downsample_strides_and_pads() {
    let p = tensor(1, 5, 7, |i| (i / 7 * 10 + i % 7) as i32);
    assert_eq!(downsample(&p, 1, 1).data, p.data);
    let s = downsample(&p, 2, 2);
    assert_eq!((s.h, s.w), (3, 4));
    for y in 0..3 {
        for x in 0..4 {
            assert_eq!(s.data[y * 4 + x], (y * 2 * 10 + x * 2) as i32);
        }
    }
    let s = downsample(&p, 1, 2);
    assert_eq!((s.h, s.w), (5, 4));
    assert_eq!(s.data[6], 14);
}

#[test]
fn nonlinear_decisions_are_assembled() {
    assert_eq!((tile_size(100), tile_size(1200)), (128, 1216));
    assert_eq!(tile_size(1201), 640);
    assert_eq!(
        (mask_value(false, false), mask_value(true, false), mask_value(false, true)),
        (0, 2, 1)
    );
    assert_eq!(block_size(0), 128);
    let y = PlaneSize { c: 1, h: 8, w: 8 };
    let all = PlaneSizes { y, u: y, v: y };
    assert!(check_input(1, 1, all, all).is_ok());
    let odd = PlaneSizes { u: PlaneSize { c: 1, h: 4, w: 8 }, ..all };
    assert!(check_input(1, 1, odd, all).is_err());
    let t = TileSolve {
        tile_width: 8,
        tile_height: 8,
        luma_min: vec![3],
        luma_max: vec![9],
        weights_u: vec![32767 + 4; 8],
        weights_v: vec![32767; 8],
    };
    let masks = TriedMasks {
        block: 128,
        rows: 1,
        cols: 1,
        u: TriedMask { mask: vec![2], kept: true },
        v: TriedMask { mask: vec![1], kept: false },
    };
    let h = assemble_header(t, true, false, Some(masks));
    assert_eq!(h.masks, [Some(vec![2]), None]);
    let n = h.nonlinear.unwrap();
    assert!(n.weights[0].is_some() && n.weights[1].is_none());
}

#[test]
fn network_choices_come_back() {
    assert_eq!(EicciLoss::default(), EicciLoss::Mixed);
    let (map_y, map_uv) = candidates(true, OperatingPoint::Bop, 1).unwrap();
    assert_eq!((map_y.len(), map_uv.len()), (2, 2));
    let (long_y, _) = candidates(false, OperatingPoint::Bop, 1).unwrap();
    assert_eq!(long_y.len(), 10);
    assert!(candidates(true, OperatingPoint::Bop, 5).is_err());
    let mut c = TileChoice::none();
    c.offer(map_y[1], map_uv[0], true, Some(ChromaGain::OnlyV));
    let t = c.signal(&map_y, &map_uv, true).unwrap();
    assert_eq!((t.use_yuv, t.index_y, t.index_uv), ([true, false, true], 1, 0));
    assert_eq!(
        zenjpegai::filters::icci::selection(&t, OperatingPoint::Bop, 1),
        Ok((Some(map_y[1] as usize), Some(map_uv[0] as usize)))
    );
    let (none, one) = enc_tile_layout(100, 100, 1 << 20, 48).unwrap();
    assert_eq!((none, one.len()), (None, 1));
}

#[test]
fn network_search_plans() {
    let mut hdr = picture_header(640, 480, 1, [0, 0], &EncodeParams::default());
    let full = |h: usize, w: usize| {
        let y = PlaneSize { c: 1, h, w };
        PlaneSizes { y, u: y, v: y }
    };
    let op = OperatingPoint::Bop;
    let p = select_plan(&hdr, op, full(480, 640), full(480, 640), true, u32::MAX, 48);
    let p = p.unwrap().unwrap();
    assert_eq!((p.tiling, p.tiles.len()), (None, 1));
    assert_eq!((p.map_y, p.map_uv), candidates(true, op, 1).unwrap());
    let p = select_plan(&hdr, op, full(480, 640), full(480, 640), false, 65_536, 48);
    let p = p.unwrap().unwrap();
    assert_eq!(p.tiling.map(|t| (t.tile_size, t.overlap)), Some((256, 48)));
    assert_eq!(p.map_y, [0, 1, 2, 3, 4, 5, 6, 7, 8, 9]);
    // A source that is larger than the reconstruction has a border that is not displayed.
    let bordered = select_plan(&hdr, op, full(480, 640), full(470, 640), true, 65_536, 48);
    assert_eq!(
        bordered.err(),
        Some(Error::Unsupported("eICCI tiling on a picture with a non-displayed border"))
    );
    assert!(select_plan(&hdr, op, full(480, 640), full(470, 640), true, u32::MAX, 48).is_ok());
    let planes = Some(Error::InvalidArgument("eICCI: expects 4:4:4 planes"));
    let mut half = full(480, 640);
    half.u.w = 320;
    assert_eq!(select_plan(&hdr, op, full(480, 640), half, true, 65_536, 48).err(), planes);
    assert_eq!(select_plan(&hdr, op, full(8, 8), full(9, 8), true, 65_536, 48).err(), planes);
    let overlap = select_plan(&hdr, op, full(480, 640), full(480, 640), true, 65_536, 47);
    assert_eq!(overlap.err(), Some(Error::InvalidArgument("eICCI: tile size/overlap")));
    hdr.model_id = 5;
    let model = select_plan(&hdr, op, full(480, 640), full(480, 640), true, 65_536, 48);
    assert_eq!(model.err(), Some(Error::InvalidArgument("eICCI: model id out of range")));
    (hdr.s_ver, hdr.s_hor) = (2, 2);
    let none = select_plan(&hdr, op, full(480, 640), half, true, 65_536, 48);
    assert!(matches!(none, Ok(None)));
}

#[test]
fn linear_decisions() {
    let (lengths, cands) = search_space(500_000, 1, false);
    let mut s = SplitSearch::new(lengths.clone(), cands.clone());
    let mut steps = 0;
    while s.pair().is_some() {
        s.record(true, false);
        steps += 1;
    }
    assert!(steps <= lengths.len() * cands.len());
    assert!(wants_upsampled(15_999_999, false, true));
    assert!(!wants_upsampled(16_000_000, false, true));
    assert!(!wants_upsampled(1, true, true));
    assert!(!wants_upsampled(1, false, false));
    let y = PlaneSize { c: 1, h: 8, w: 8 };
    let all = PlaneSizes { y, u: y, v: y };
    assert!(check_sizes(1, 1, all, all).is_ok());
    assert!(check_sizes(2, 2, all, all).is_err());
    assert_eq!(empty_set(5).cand, [None, None]);
}

#[test]
fn filter_codes_come_back() {
    let d = |cand: usize, n: usize, code: u32| PlaneDecision {
        cand,
        filter_len: 1,
        chroma: vec![vec![code]; n],
        luma: vec![vec![code + 1]; n],
    };
    let set = assemble_set(&d(0, 1, 40000), &d(1, 2, 30000), true).unwrap();
    assert_eq!(set.cand, [Some(0), Some(1)]);
    // Codes are kept above the smallest one.
    assert_eq!(set.chroma_weights[0], vec![vec![10000]]);
    assert_eq!(set.luma_weights[1], vec![vec![1], vec![1]]);
    assert_eq!((set.min_symbol, set.max_symbol), (30000, 10001));
}

#[test]
fn refused_arguments_name_themselves() {
    let p = EncodeParams { model_id: 9, ..Default::default() };
    assert!(matches!(check_params(560, 888, &p), Err(Error::InvalidArgument(_))));
}

#[test]
fn written_headers() {
    let params = EncodeParams {
        beta_displacement_log: [-5000, 5000],
        rvs: true,
        lsbs: true,
        regions: Some(RegionMode::Dependent),
        ..EncodeParams::default()
    };
    let side = |cube_flags, grfs_channel_flags| SideInfo { cube_flags, grfs_channel_flags };
    let cubes = picture_header(2048, 1024, 1, [0, 0], &params).cube_flag_count(0);
    let luma = side(Some(vec![false; cubes]), None);
    let chroma = side(None, Some(vec![true; 96]));
    let hdr = coded_header(2048, 1024, &params, luma, chroma).unwrap();
    assert_eq!(hdr.beta_displacement_log, [BDL_MIN, BDL_MAX]);
    assert_eq!(hdr.components[0].cube_flags.as_ref().map(Vec::len), Some(cubes));
    assert_eq!(hdr.components[1].grfs_channel_flags, Some(vec![true; 96]));
    assert!(hdr.components[0].rvs_enabled && hdr.components[1].rvs_enabled);
    assert_eq!(hdr.check_conformance(), Ok(()));
    let back = zenjpegai::header::PictureHeader::parse(&hdr.write().unwrap()).unwrap();
    assert_eq!(back, hdr);
    // Without side information it is the header that an encode starts from.
    let plain = coded_header(640, 480, &EncodeParams::default(), side(None, None), side(None, None));
    assert_eq!(plain, Ok(picture_header(640, 480, 1, [0, 0], &EncodeParams::default())));
    assert_eq!(
        coded_header(63, 480, &params, side(None, None), side(None, None)),
        Err(Error::Unsupported("picture dimensions outside the format's 64..65599"))
    );
    let tools = tool_header(&params);
    assert_eq!(tools.lsbs_enabled, [true, true]);
    assert!(!tools.any_post_filter());
    // The counts of a picture that is too large for the format keep their low bytes.
    assert_eq!(region_counts(1024, 300 * 1024), Some((1, 44)));
    assert_eq!(region_counts(0, 7), None);
}

#[test]
fn linear_search_geometry() {
    let meta = |s: (u8, u8), c: (u8, u8)| SourceMeta {
        bit_depth: 8,
        s_ver: s.0,
        s_hor: s.1,
        c_ver: c.0,
        c_hor: c.1,
        colour_transform: ColourTransform::Bt709,
    };
    let plane = |h: usize, w: usize| PlaneSize { c: 1, h, w };
    let sizes = |y: PlaneSize, u: PlaneSize| PlaneSizes { y, u, v: u };
    let full = sizes(plane(9, 14), plane(9, 14));
    let p = search_plan(&meta((1, 1), (2, 2)), full, full).unwrap();
    assert_eq!((p.fv, p.fh, p.s0, p.s1, p.coded_444), (2, 2, 5, 7, false));
    let half = sizes(plane(9, 14), plane(5, 7));
    let p = search_plan(&meta((2, 2), (2, 2)), half, half).unwrap();
    assert_eq!((p.fv, p.fh, p.s0, p.s1, p.coded_444), (1, 1, 5, 7, true));
    assert_eq!(
        search_plan(&meta((1, 1), (1, 1)), full, half),
        Err(Error::InvalidArgument("EFE linear: reconstruction and source sizes differ"))
    );
    // Full resolution reads four phases, half the width two of them, a quarter one.
    let read = |fv: usize, fh: usize| [0, 1, 2, 3].map(|i| chroma_channel_phase(i, fv, fh));
    assert_eq!(read(2, 2), [0, 1, 2, 3]);
    assert_eq!(read(2, 1), [0, 0, 2, 2]);
    assert_eq!(read(1, 1), [0, 0, 0, 0]);
    assert_eq!(region_extent(0, 0, 5, 7), ((0, 5), (0, 7)));
    let all: usize = (0..6)
        .map(|n| region_extent(7, n, 50, 70))
        .map(|(r, c)| (r.1 - r.0) * (c.1 - c.0))
        .sum();
    assert_eq!(all, 50 * 70);
}

#[test]
fn decided_filters_are_written() {
    let d = |cand: usize, n: usize, len: usize, code: u32| PlaneDecision {
        cand,
        filter_len: len,
        chroma: vec![vec![code; len * len]; n],
        luma: vec![vec![code + 7; len * len]; n],
    };
    let pih = picture_header(640, 480, 1, [0, 0], &EncodeParams::default());
    assert!(pih.efe_coded_444());
    let (u, v) = (d(3, 3, 2, 40_000), d(6, 6, 4, 30_000));
    let header = |alt| filter_header(false, [1200, 32_767], alt, &u, &v, true).unwrap();
    let h = header(Some((d(0, 1, 1, 32_767), d(0, 1, 1, 9))));
    assert_eq!((h.mean, h.set.min_symbol, h.set.max_symbol), ([1200, 32_767], 30_000, 10_007));
    assert_eq!(h.upsample_set, raw_set(d(0, 1, 1, 32_767), d(0, 1, 1, 9)));
    assert_eq!(h.upsample_set.chroma_weights, [vec![vec![32_767]], vec![vec![9]]]);
    let bare = filter_header(true, [1, 2], None, &u, &v, true).unwrap();
    assert_eq!((bare.mean, &bare.set), ([0, 0], &empty_set(u16::MAX)));
    let masks = TriedMasks {
        block: 64,
        rows: 2,
        cols: 3,
        u: TriedMask { mask: vec![0, 1, 2, 2, 1, 0], kept: true },
        v: TriedMask { mask: vec![1; 6], kept: false },
    };
    let solve = TileSolve {
        tile_width: 320,
        tile_height: 512,
        luma_min: vec![1, 2],
        luma_max: vec![25_500, 3],
        weights_u: vec![65_535; 16],
        weights_v: vec![7; 16],
    };
    let mut choice = TileChoice::none();
    let (map_y, map_uv) = candidates(true, OperatingPoint::Bop, 1).unwrap();
    choice.offer(map_y[1], map_uv[1], true, Some(ChromaGain::OnlyV));
    let tile = choice.signal(&map_y, &map_uv, true).unwrap();
    for linear in [header(None), h, bare] {
        let t = ToolHeader {
            efe_linear: Some(linear),
            icci: Some(IcciHeader { tiling: None, tiles: vec![tile.clone()] }),
            ..tool_header(&EncodeParams::default())
        };
        assert_eq!(ToolHeader::parse(&t.write(&pih).unwrap(), &pih), Ok(t));
    }
    let t = ToolHeader {
        efe_nonlinear: Some(assemble_header(solve, true, false, Some(masks))),
        ..tool_header(&EncodeParams::default())
    };
    assert_eq!(ToolHeader::parse(&t.write(&pih).unwrap(), &pih), Ok(t));
    // Every region needs its filters.
    assert_eq!(
        filter_header(false, [0, 0], None, &d(1, 1, 1, 5), &v, true),
        Err(Error::InvalidData("EFE linear: filter count"))
    );
}

#[test]
fn regions_are_kept_whole() {
    let whole = |w: u32, h: u32, regions| {
        let params = EncodeParams { regions, ..EncodeParams::default() };
        let hdr = picture_header(w, h, 1, [0, 0], &params);
        (committed_whole(&hdr), decoded_whole(&hdr))
    };
    assert_eq!(whole(4096, 2048, Some(RegionMode::Independent)), (true, true));
    assert_eq!(whole(4096, 2048, Some(RegionMode::Dependent)), (false, false));
    assert_eq!(whole(4096, 2048, None), (true, false));
    // The only region of a picture comes out the same.
    let (latent, image) = (Area::new(0, 0, 256, 128), Area::new(0, 0, 4096, 2048));
    let core = |whole: bool| region_core(latent, image, 2048, 4096, whole);
    assert_eq!(core(true).unwrap(), core(false).unwrap());
}

#[test]
fn closest_model_is_matched() {
    let target = 0.5f64;
    let run = |rates: [f64; 4]| {
        let (mut s, mut best) = (ModelSearch::new(), f64::INFINITY);
        while let Some(id) = s.model() {
            let apart = (rates[id] - target).abs() / rates[id];
            s.record(apart < best);
            best = best.min(apart);
        }
        s
    };
    let s = run([0.1, 0.4, 0.45, 2.0]);
    assert_eq!((s.best(), s.range()), (2, (-443, 702)));
    assert_eq!(
        s.settle(-2000, 7),
        Settled { model_id: 2, beta_displacement_log: BDL_MIN, trials: 12 }
    );
    assert_eq!(s.settle(-300, 0).trials, 5);
    // The first of two that are as close is kept.
    assert_eq!(run([0.5, 0.5, 0.5, 0.5]).best(), 0);
    assert_eq!(run([f64::NAN; 4]).best(), 0);
}
