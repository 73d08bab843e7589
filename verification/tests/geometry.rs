//! Tiles, regions, planes and the geometry of the post-filters.

use zenjpegai::area::Area;
use zenjpegai::decoder::output::{
    finish, interleave, output_kind, raw_yuv, to_source_format, widened, ChromaStep, OutputKind,
    Picture, YuvImage,
};
use zenjpegai::decoder::synthesis::{output_size, place_chroma, place_luma, OutputSize};
use zenjpegai::encoder::commit::commit;
use zenjpegai::encoder::grid::Encoder;
use zenjpegai::encoder::params::EncodeParams;
use zenjpegai::encoder::tiles::{analysis_tiles, div_up, floor_sqrt, synthesis_tiling};
use zenjpegai::error::Error;
use zenjpegai::filters::efe_linear::{linear_plan, phase_plane, regions, split_edge, supported_format};
use zenjpegai::filters::efe_nonlinear::{
    check_chroma, check_switch, has_first_mask, switch_at, switch_geometry, tiles, SwitchTo,
};
use zenjpegai::filters::icci::{filter_plan, selection, tile_layout};
use zenjpegai::filters::lef::{band, check_scale_map, check_sharpen, on_border};
use zenjpegai::filters::{steps, FilterStep};
use zenjpegai::header::{
    EfeLinearHeader, EfeLinearSet, EfeNonlinearHeader, EfeNonlinearTiles, IcciHeader, IcciTile,
    OperatingPoint, PictureHeader, SynthesisTiling, ToolHeader,
};
use zenjpegai::planes::{assign, replicate_pad, subsample_into, unshuffle_into, PlaneSize};
use zenjpegai::regions::{
    coded_mask, coded_only, cube_area, cube_count, cube_flags, hyper_crop, merge_cube_flags, merge_regions,
    psi_size, region_area_grid, region_core, signalled_flags, skip_mask_or_cubes,
};
use zenjpegai::tensor::Tensor;

fn header() -> PictureHeader {
    let bytes: Vec<u8> = "011103401f00338000008a32c5001800"
        .as_bytes()
        .chunks(2)
        .map(|p| u8::from_str_radix(core::str::from_utf8(p).unwrap(), 16).unwrap())
        .collect();
    PictureHeader::parse(&bytes).unwrap()
}

fn tensor<T>(c: usize, h: usize, w: usize, f: impl Fn(usize) -> T) -> Tensor<T> {
    Tensor { c, h, w, data: (0..c * h * w).map(f).collect() }
}

fn size(c: usize, h: usize, w: usize) -> PlaneSize {
    PlaneSize { c, h, w }
}

/// The analysis tiles of a 2096x1400 picture.
#[test]
fn matches_reference_layout() {
    let luma = analysis_tiles(0, 1400, 2096, 88, 131, 22, 33).unwrap();
    let images: Vec<Area> = luma.iter().map(|t| t.image).collect();
    assert_eq!(
        images,
        [
            Area::new(0, 0, 1024, 1024),
            Area::new(960, 0, 1024, 1024),
            Area::new(1920, 0, 176, 1024),
            Area::new(0, 960, 1024, 440),
            Area::new(960, 960, 1024, 440),
            Area::new(1920, 960, 176, 440),
        ]
    );
    let latents: Vec<Area> = luma.iter().map(|t| t.latent).collect();
    assert_eq!(latents[1], Area::new(60, 0, 64, 64));
    assert_eq!(latents[5], Area::new(120, 60, 11, 28));
    let hyper: Vec<Area> = luma.iter().map(|t| t.hyper).collect();
    assert_eq!(hyper[1], Area::new(15, 0, 16, 16));
    assert_eq!(hyper[5], Area::new(30, 15, 3, 7));
    // Latent cores partition the latent; hyper cores are whole tiles (64 / 2 / 64 == 0).
    let covered: usize = luma.iter().map(|t| t.latent_core.width * t.latent_core.height).sum();
    assert_eq!(covered, 88 * 131);
    assert_eq!(luma[0].latent_core, Area::new(0, 0, 62, 62));
    assert_eq!(luma[1].latent_core_offset, (2, 0));
    assert_eq!(hyper[0], luma[0].hyper_core);

    let chroma = analysis_tiles(1, 700, 1048, 88, 131, 22, 33).unwrap();
    let images: Vec<Area> = chroma.iter().map(|t| t.image).collect();
    assert_eq!(
        images,
        [
            Area::new(0, 0, 512, 512),
            Area::new(480, 0, 512, 512),
            Area::new(960, 0, 88, 512),
            Area::new(0, 480, 512, 220),
            Area::new(480, 480, 512, 220),
            Area::new(960, 480, 88, 220),
        ]
    );
    // The chroma plane is half the luma plane, so its latent / hyper grids coincide.
    assert_eq!(
        chroma.iter().map(|t| t.latent).collect::<Vec<_>>(),
        luma.iter().map(|t| t.latent).collect::<Vec<_>>()
    );
    assert_eq!(
        chroma.iter().map(|t| t.hyper).collect::<Vec<_>>(),
        luma.iter().map(|t| t.hyper).collect::<Vec<_>>()
    );
}

#[test]
fn small_pictures_are_one_tile() {
    for ccs in 0..2 {
        let d = [1usize, 2][ccs];
        let t = analysis_tiles(ccs, 888 / d, 560 / d, 56, 35, 14, 9).unwrap();
        assert_eq!(t.len(), 1);
        assert_eq!(t[0].latent_core, Area::new(0, 0, 35, 56));
    }
}

#[test]
fn synthesis_tiling_matches_the_reference_header() {
    assert_eq!(synthesis_tiling(888, 560), None);
    let t = synthesis_tiling(1400, 2096).unwrap();
    assert_eq!((t.tile_size, t.overlap), (1024, 64));
}

#[test]
fn the_tile_grid_of_an_encode() {
    let p = EncodeParams::default();
    let g = Encoder::analysis_tile_grid(2096, 1400, 0, &p).unwrap();
    assert_eq!(g, analysis_tiles(0, 1400, 2096, 88, 131, 22, 33).unwrap());
    assert_eq!(div_up(7, 2), 4);
    assert_eq!((floor_sqrt(0), floor_sqrt(15), floor_sqrt(16)), (0, 3, 4));
}

#[test]
fn untiled_is_one_tile() {
    let t = tile_layout(888, 560, None).unwrap();
    assert_eq!(t.len(), 1);
    assert_eq!(t[0].core, Area::new(0, 0, 560, 888));
}

/// The layout of 2096x1400, tile 1024, overlap 48: the last column would be 144 wide, so it takes
/// 176 from its neighbour.
#[test]
fn matches_reference_layout_with_adjusted_boundary() {
    let tiling = SynthesisTiling { tile_size: 1024, overlap: 48 };
    let t = tile_layout(1400, 2096, Some(tiling)).unwrap();
    let got: Vec<(Area, Area, (usize, usize))> =
        t.iter().map(|t| (t.image, t.core, t.core_offset)).collect();
    assert_eq!(
        got,
        [
            (Area::new(0, 0, 1024, 1024), Area::new(0, 0, 1000, 1000), (0, 0)),
            (Area::new(976, 0, 848, 1024), Area::new(1000, 0, 800, 1000), (24, 0)),
            (Area::new(1776, 0, 320, 1024), Area::new(1800, 0, 296, 1000), (24, 0)),
            (Area::new(0, 976, 1024, 424), Area::new(0, 1000, 1000, 400), (0, 24)),
            (Area::new(976, 976, 848, 424), Area::new(1000, 1000, 800, 400), (24, 24)),
            (Area::new(1776, 976, 320, 424), Area::new(1800, 1000, 296, 400), (24, 24)),
        ]
    );
    let covered: usize = t.iter().map(|t| t.core.width * t.core.height).sum();
    assert_eq!(covered, 1400 * 2096);
    // A picture narrower than the minimum, or tiles too small to give 176 away.
    assert!(tile_layout(1400, 160, Some(tiling)).is_err());
    let small = SynthesisTiling { tile_size: 192, overlap: 48 };
    assert!(tile_layout(1400, 2096, Some(small)).is_err());
}

#[test]
fn short_lists_map_to_the_bank() {
    let t = IcciTile {
        use_yuv: [true, false, true],
        short_list: true,
        index_y: 1,
        index_uv: 0,
    };
    assert_eq!(selection(&t, OperatingPoint::Bop, 1).unwrap(), (Some(6), Some(1)));
    assert_eq!(selection(&t, OperatingPoint::Hop, 1).unwrap(), (Some(8), Some(1)));
    let long = IcciTile { short_list: false, index_y: 9, ..t };
    assert_eq!(selection(&long, OperatingPoint::Sop, 4).unwrap(), (Some(9), Some(0)));
    assert!(selection(&t, OperatingPoint::Bop, 5).is_err());
}

#[test]
fn filter_plans_count_their_tiles() {
    let hdr = header();
    let h = IcciHeader { tiling: None, tiles: vec![IcciTile::default()] };
    let y = size(1, 888, 560);
    assert_eq!(filter_plan(&hdr, &h, y, y, y).unwrap().tiles.len(), 1);
    let two = IcciHeader { tiling: None, tiles: vec![IcciTile::default(); 2] };
    assert!(filter_plan(&hdr, &two, y, y, y).is_err());
}

#[test]
fn split_edges_round_half_to_even_like_python() {
    // round(f * (s + 31) / 32) * 32 for f = 0.33, 0.5, 0.66, 1, in hundredths.
    for (s, want) in [
        (444, [160, 224, 320, 480]),
        (280, [96, 160, 192, 320]),
        (101, [32, 64, 96, 128]),
        (50, [32, 32, 64, 96]),
        (20, [32, 32, 32, 64]),
        // 0.5 * 160 / 32 = 2.5 rounds to 2, not 3.
        (129, [64, 64, 96, 160]),
    ] {
        let got = [33, 50, 66, 100].map(|f| split_edge(f, s));
        assert_eq!(got, want, "s = {s}");
    }
}

#[test]
fn formats_without_an_oracle_are_rejected() {
    let mut hdr = header();
    let y = size(1, 4, 4);
    let h = EfeLinearHeader::default();
    hdr.colour_transform = zenjpegai::header::ColourTransform::Plain;
    (hdr.s_ver, hdr.s_hor, hdr.c_ver, hdr.c_hor) = (2, 1, 2, 1);
    assert!(matches!(supported_format(&hdr), Err(Error::Unsupported(_))));
    assert!(matches!(linear_plan(&hdr, &h, false, y, y, y), Err(Error::Unsupported(_))));
    (hdr.s_ver, hdr.s_hor, hdr.c_ver, hdr.c_hor) = (1, 2, 2, 2);
    assert!(matches!(linear_plan(&hdr, &h, false, y, y, y), Err(Error::Unsupported(_))));
}

#[test]
fn regions_of_a_split_cover_the_plane() {
    let set = EfeLinearSet {
        cand: [Some(1), None],
        filter_len: [1, 1],
        chroma_weights: [vec![vec![32767 + 5; 1]; 2], Vec::new()],
        luma_weights: [vec![vec![32767 - 7; 1]; 2], Vec::new()],
        ..Default::default()
    };
    let r = regions(&set, 0, true, 100, 90).unwrap();
    assert_eq!(r.len(), 2);
    let area: usize =
        r.iter().map(|r| (r.rows.1 - r.rows.0) * (r.cols.1 - r.cols.0)).sum();
    assert_eq!(area, 100 * 90);
    assert_eq!((r[0].k, r[0].chroma[0][0], r[0].luma[0]), (1, 2048 + 5, -7));
}

#[test]
fn phases_are_strided_planes() {
    let p = tensor(1, 4, 4, |i| i as i16);
    // One sample more in front and two more behind, the border repeated.
    assert_eq!(
        phase_plane(&p, 2, 2, 1, 0, 2, 2),
        [
            4, 4, 6, 6, 6, 4, 4, 6, 6, 6, 12, 12, 14, 14, 14, 12, 12, 14, 14, 14, 12, 12, 14, 14,
            14
        ]
    );
}

#[test]
fn nonlinear_tiles_cover_the_plane() {
    let t = EfeNonlinearTiles {
        tile_width: 8,
        tile_height: 10,
        luma_min: vec![1, 2, 3, 4],
        luma_max: vec![5, 6, 7, 8],
        weights: [None, None],
    };
    let codes: Vec<u32> = (0..32).collect();
    let v = tiles(&t, 100, &codes, 15, 12).unwrap();
    assert_eq!(v.len(), 4);
    let area: usize =
        v.iter().map(|t| (t.rows.1 - t.rows.0) * (t.cols.1 - t.cols.0)).sum();
    assert_eq!(area, 15 * 12);
    assert_eq!((v[3].luma_min, v[3].luma_max), (4, 8));
}

#[test]
fn switches_follow_the_mask() {
    let mask = vec![0u8, 1, 2, 0];
    assert!(check_switch(4, 2, 2, &mask, size(1, 8, 8), size(1, 8, 8)).is_ok());
    assert!(check_switch(4, 2, 2, &mask, size(1, 8, 7), size(1, 8, 8)).is_err());
    assert_eq!(switch_at(4, 2, &mask, 0, 0, 8, 8), SwitchTo::Filtered);
    assert_eq!(switch_at(4, 2, &mask, 3, 4, 8, 8), SwitchTo::Average);
    assert_eq!(switch_at(4, 2, &mask, 4, 3, 8, 8), SwitchTo::Alternative);
    let h = EfeNonlinearHeader::default();
    assert!(!has_first_mask(&h));
    assert_eq!(switch_geometry(&h, false), Ok(None));
    assert!(check_chroma(&header(), size(1, 8, 8), size(1, 8, 8)).is_ok());
    assert!(check_chroma(&header(), size(1, 8, 8), size(1, 4, 8)).is_err());
}

#[test]
fn sharpening_bands_and_borders() {
    let bands: Vec<usize> = (-5000..5000).step_by(100).map(|s| band(1, s)).collect();
    assert!(bands.windows(2).all(|p| p[0] <= p[1]) || bands.windows(2).all(|p| p[0] >= p[1]));
    assert!(on_border(0, 3, 8, 8) && on_border(7, 3, 8, 8) && !on_border(3, 3, 8, 8));
    assert!(check_scale_map(size(1, 0, 4)).is_err());
    assert!(check_scale_map(size(3, 4, 4)).is_ok());
    assert!(check_sharpen(size(1, 8, 8), size(2, 4, 4), 2, 1, 8).is_err());
    assert!(check_sharpen(size(1, 8, 8), size(2, 4, 4), 1, 1, 8).is_ok());
}

#[test]
fn filters_run_in_their_order() {
    assert!(steps(&ToolHeader::default()).is_empty());
    let t = ToolHeader {
        efe_linear: Some(EfeLinearHeader::default()),
        icci: Some(IcciHeader::default()),
        efe_nonlinear: Some(EfeNonlinearHeader::default()),
        lef_channel: Some(3),
        ..Default::default()
    };
    assert_eq!(
        steps(&t),
        [FilterStep::EfeLinear, FilterStep::Icci, FilterStep::EfeNonlinear, FilterStep::Lef]
    );
}

#[test]
fn hyper_decoder_sizes() {
    assert_eq!((hyper_crop(888, 32), hyper_crop(560, 32), hyper_crop(64, 32)), (0, 0, 0));
    assert_eq!((hyper_crop(1, 32), hyper_crop(65, 32)), (1, 1));
    let image = Area::new(0, 0, 560, 888);
    assert_eq!(psi_size(image, Area::new(0, 0, 9, 14), 0), Ok((28, 18)));
    assert_eq!(
        psi_size(Area::new(0, 0, 1, 1), Area::new(0, 0, 0, 0), 0),
        Err(Error::InvalidData("region geometry"))
    );
}

#[test]
fn cores_of_regions() {
    let latent = Area::new(10, 0, 20, 30);
    let image = Area::new(160, 0, 320, 480);
    assert_eq!(
        region_core(latent, image, 480, 1000, false),
        Ok((Area::new(11, 0, 18, 30), (1, 0)))
    );
    assert_eq!(region_core(latent, image, 480, 1000, true), Ok((latent, (0, 0))));
    assert!(region_core(Area::new(1, 0, 1, 9), image, 480, 1000, false).is_err());
}

#[test]
fn merging_keeps_the_cores() {
    let latents = [Area::new(0, 0, 3, 1), Area::new(1, 0, 3, 1)];
    let images = [Area::new(0, 0, 48, 16), Area::new(16, 0, 48, 16)];
    let parts = [tensor(1, 1, 3, |i| i as i16 + 10), tensor(1, 1, 3, |i| i as i16 + 20)];
    let mut dst = tensor(1, 1, 4, |_| 0i16);
    merge_regions(&mut dst, &parts, &latents, &images, 16, 64, false).unwrap();
    assert_eq!(dst.data, [10, 11, 21, 22]);
    let mut dst = tensor(1, 1, 4, |_| 0i16);
    merge_regions(&mut dst, &parts, &latents, &images, 16, 64, true).unwrap();
    assert_eq!(dst.data, [10, 20, 21, 22]);
    let thin = [Area::new(0, 0, 0, 1), Area::new(1, 0, 3, 1)];
    assert!(merge_regions(&mut dst, &parts, &thin, &images, 16, 64, false).is_err());
}

#[test]
fn cubes() {
    assert_eq!((cube_count(0), cube_count(16), cube_count(17)), (0, 1, 2));
    let mut mask = tensor(1, 2, 2, |_| false);
    assert_eq!(
        skip_mask_or_cubes(&mask, &[true, false, true, true]).data,
        [false, true, false, false]
    );
    mask.data[2] = true;
    assert_eq!(cube_flags(&mask), [true, true, false, true]);
    assert_eq!(signalled_flags(&vec![true, true]), None);
    assert_eq!(signalled_flags(&vec![true, false]), Some(vec![true, false]));
    assert_eq!(cube_area(Area::new(16, 32, 17, 5)), Area::new(1, 2, 2, 1));
    let mut flags = tensor(4, 1, 2, |_| true);
    merge_cube_flags(&mut flags, Area::new(16, 0, 16, 16), &tensor(4, 1, 1, |_| false));
    assert_eq!(flags.data, [true, false, true, false, true, false, true, false]);
    let q = tensor(1, 1, 3, |i| i as i16 + 1);
    assert_eq!(coded_only(&q, &tensor(1, 1, 3, |i| i != 1)).data, [1, 0, 3]);
}

#[test]
fn region_grids_cover_the_plane() {
    let g = region_area_grid(300, 520, 2, 2);
    assert_eq!(
        g,
        [
            Area::new(0, 0, 256, 128),
            Area::new(256, 0, 264, 128),
            Area::new(0, 128, 256, 172),
            Area::new(256, 128, 264, 172),
        ]
    );
}

#[test]
fn planes_are_copied_and_padded() {
    let src = tensor(1, 3, 3, |i| i as i16);
    let mut dst = tensor(1, 4, 4, |_| -1i16);
    assign(&mut dst, Area::new(2, 2, 3, 3), &src, (1, 0));
    assert_eq!(dst.data, [-1, -1, -1, -1, -1, -1, -1, -1, -1, -1, 1, 2, -1, -1, 4, 5]);
    assert_eq!(replicate_pad(&vec![1, 2, 3, 4], 2, 2, 3, 3), [1, 2, 2, 3, 4, 4, 3, 4, 4]);
    let mut out = tensor(4, 1, 2, |_| 0i16);
    unshuffle_into(&mut out, 0, &vec![1, 2, 3, 4, 5, 6, 7, 8], 2, 4);
    assert_eq!(out.data, [1, 3, 2, 4, 5, 7, 6, 8]);
    let mut small = tensor(1, 2, 2, |_| 0i16);
    subsample_into(&mut small, &tensor(1, 4, 4, |i| i as i16), 0, Area::new(0, 0, 4, 4), (0, 0), 2, 2);
    assert_eq!(small.data, [0, 2, 8, 10]);
    assert_eq!(Area::new(2, 1, 5, 5).clip(4, 4), Area::new(2, 1, 2, 3));
}

#[test]
fn tiles_are_placed() {
    let tile = tensor(1, 2, 2, |i| i as i16 + 1);
    let mut out = tensor(1, 2, 3, |_| 0i16);
    place_luma(&mut out, &tile, Area::new(1, 0, 2, 2), (0, 0)).unwrap();
    assert_eq!(out.data, [0, 1, 2, 0, 3, 4]);
    assert!(place_luma(&mut out, &tile, Area::new(1, 0, 2, 2), (1, 0)).is_err());
    let both = tensor(2, 2, 2, |i| i as i16);
    let (mut u, mut v) = (tensor(1, 1, 1, |_| 0i16), tensor(1, 1, 1, |_| 0i16));
    place_chroma(&mut u, &mut v, &both, Area::new(0, 0, 2, 2), (0, 0), 2, 2).unwrap();
    assert_eq!((u.data[0], v.data[0]), (0, 4));
}

#[test]
fn output_sizes() {
    let mut hdr = header();
    let (l, c) = (size(160, 56, 35), size(96, 56, 35));
    assert_eq!(
        output_size(&hdr, l, c),
        Ok(OutputSize { height: 888, width: 560, chroma_height: 888, chroma_width: 560 })
    );
    assert!(output_size(&hdr, size(160, 1, 1), c).is_err());
    assert_eq!(to_source_format(&hdr), Ok(ChromaStep::Keep));
    assert_eq!(output_kind(&hdr), Ok(OutputKind::Rgb));
    (hdr.c_ver, hdr.c_hor) = (2, 2);
    assert_eq!(to_source_format(&hdr), Ok(ChromaStep::Upsample));
    hdr.colour_transform = zenjpegai::header::ColourTransform::Plain;
    (hdr.s_ver, hdr.s_hor) = (2, 2);
    assert_eq!(output_kind(&hdr), Ok(OutputKind::Yuv));
}

#[test]
fn pictures_are_finished() {
    let mut hdr = header();
    hdr.width = 64;
    hdr.height = 64;
    let plane = |b: usize| tensor(1, 64, 64, move |i| ((i + b) % 256) as u16);
    match finish(&hdr, plane(0), plane(1), plane(2)).unwrap() {
        Picture::Rgb(img) => {
            assert_eq!((img.width, img.height, img.bit_depth), (64, 64, 8));
            assert_eq!(&img.data[..6], [0, 1, 2, 1, 2, 3]);
        }
        Picture::Yuv(_) => unreachable!(),
    }
    assert!(finish(&hdr, tensor(1, 63, 64, |_| 0), plane(1), plane(2)).is_err());
    assert_eq!(interleave(&vec![1, 4], &vec![2, 5], &vec![3, 6]), [1, 2, 3, 4, 5, 6]);
    let yuv = YuvImage {
        width: 2,
        height: 1,
        chroma_width: 1,
        chroma_height: 1,
        bit_depth: 10,
        y: vec![1, 0x0302],
        u: vec![4],
        v: vec![5],
    };
    assert_eq!(raw_yuv(&yuv), [1, 0, 2, 3, 4, 0, 5, 0]);
    assert_eq!((widened(255, 8), widened(1023, 10)), (65535, 65535));
}

#[test]
fn committed_components() {
    let whole = Area::new(0, 0, 4, 4);
    let picture = Area::new(0, 0, 64, 64);
    let threshold = Tensor { c: 1, h: 4, w: 4, data: (0..16).map(|i| i == 0).collect() };
    let residual = || Tensor { c: 1, h: 4, w: 4, data: vec![5i16; 16] };
    let flags = |last: bool| Tensor { c: 4, h: 1, w: 1, data: vec![true, true, true, last] };
    let run = |last: bool| {
        commit(&threshold, &[residual()], &[flags(last)], &[whole], &[picture], 64, 64, true)
    };
    // Every sample of the fourth phase is coded, and what the threshold lets through.
    let c = run(false).unwrap();
    let coded = [0, 5, 7, 13, 15];
    assert_eq!(c.cube_flags, Some(vec![true, true, true, false]));
    assert_eq!(c.mask.data, (0..16).map(|i| coded.contains(&i)).collect::<Vec<_>>());
    let kept = |i: usize| if coded.contains(&i) { 5 } else { 0 };
    assert_eq!(c.residual_q.data, (0..16).map(kept).collect::<Vec<i16>>());
    assert_eq!(coded_mask(&threshold, &c.cube_flags), c.mask);
    // Where every cube may be skipped, no flags are carried.
    let c = run(true).unwrap();
    assert_eq!((c.cube_flags, &c.mask), (None, &threshold));
    assert_eq!(coded_mask(&threshold, &None), threshold);
    assert_eq!(c.residual_q.data.iter().filter(|&&v| v != 0).count(), 1);
    // A region that faces others on both sides is smaller than its overlap.
    let inner = commit(
        &threshold,
        &[residual()],
        &[flags(true)],
        &[Area::new(1, 0, 1, 4)],
        &[Area::new(16, 0, 16, 64)],
        64,
        64,
        false,
    );
    assert_eq!(inner.err(), Some(Error::InvalidData("region smaller than its overlap")));
}

#[test]
fn odd_pictures_are_analysed_unpadded() {
    let p = EncodeParams::default();
    let grid = |w: usize, h: usize, ccs: usize| Encoder::analysis_tile_grid(w, h, ccs, &p).unwrap();
    let g = grid(561, 889, 0);
    assert_eq!(g.len(), 1);
    assert_eq!(g[0].image, Area::new(0, 0, 561, 889));
    let latent = Area::new(0, 0, 36, 56);
    assert_eq!((g[0].latent, g[0].latent_core), (latent, latent));
    let hyper = Area::new(0, 0, 9, 14);
    assert_eq!((g[0].hyper, g[0].hyper_core), (hyper, hyper));
    // Chroma has half of each side, rounded up.
    assert_eq!(grid(561, 889, 1)[0].image, Area::new(0, 0, 281, 445));
    // A picture that is tiled only once its sides are rounded up is one tile.
    assert_eq!(grid(1025, 1023, 0).len(), 1);
    assert!(grid(1026, 1024, 0).len() > 1);
}
