//! Picture header, tool header and rendering information.

use zenjpegai::container::{Codestream, CodestreamWriter, Marker};
use zenjpegai::decoder::read_headers;
use zenjpegai::error::Error;
use zenjpegai::header::{
    Cicp, Clli, ColourTransform, Mdcv, OperatingPoint, PictureHeader, QualityMapHeader, Regions,
    RenderingInfo, SynthesisTiling, ToolHeader,
};

fn hex(s: &str) -> Vec<u8> {
    (0..s.len()).step_by(2).map(|i| u8::from_str_radix(&s[i..i + 2], 16).unwrap()).collect()
}

// Header payloads of streams for a 560x888 8-bit picture at 0.5 bits per pixel.
const PIH_BASE_TOOLS_OFF: &str = "011103401f00338000008a32c5001800";
const PIH_HIGH_TOOLS_ON: &str = "0222103401f003380000091830503fffffff9744000000000000000000\
    00000000000181ffe00000000000000000000000";
const TON_HIGH_TOOLS_ON: &str = "eb3c5a73888880007fffc0013fff3ffc3fff0888bffc000553035a1000\
    0ffff86002806605410105100680565aa8695aa408a206";

#[test]
fn pih_base_profile_tools_off() {
    let payload = hex(PIH_BASE_TOOLS_OFF);
    let h = PictureHeader::parse(&payload).unwrap();
    assert_eq!(h.stream_profile_idc, 0);
    assert_eq!(h.decoder_profile_id, 1);
    assert_eq!(h.synthesis_transforms, [OperatingPoint::Bop, OperatingPoint::Sop]);
    assert_eq!(h.level_idc, 52);
    assert_eq!((h.width, h.height), (496 + 64, 824 + 64));
    assert_eq!((h.diff_display_width, h.diff_display_height), (0, 0));
    assert_eq!(h.bit_depth, 8);
    assert_eq!((h.s_ver, h.s_hor, h.c_ver, h.c_hor), (1, 1, 1, 1));
    assert_eq!(h.colour_transform, ColourTransform::Bt709);
    assert_eq!(h.model_id, 1);
    assert_eq!(h.num_threads_z, 1);
    assert_eq!(h.beta_displacement_log, [2251 - 2048, 2251 - 2048]);
    assert_eq!(h.regions, None);
    for (c, chs) in h.components.iter().zip([160, 96]) {
        assert_eq!(c.num_threads_r, 1);
        assert_eq!(c.num_chs, chs);
        assert_eq!(c.cube_flags, None);
        assert!(!c.rvs_enabled);
        assert_eq!(c.grfs_channel_flags, None);
        assert_eq!(c.synthesis_tiling, None);
    }
    assert_eq!(h.quality_map, None);
    h.check_conformance().unwrap();

    assert_eq!(h.latent_size(0), (56, 35));
    assert_eq!(h.latent_size(1), (56, 35));
    assert_eq!(h.hyper_latent_size(0), (14, 9));
    assert_eq!(h.hyper_latent_size(1), (14, 9));

    assert_eq!(h.write().unwrap(), payload, "PIH must re-serialise to the same bytes");
}

#[test]
fn pih_high_profile_tools_on() {
    let payload = hex(&PIH_HIGH_TOOLS_ON.replace(char::is_whitespace, ""));
    let h = PictureHeader::parse(&payload).unwrap();
    assert_eq!(h.decoder_profile_id, 2);
    assert_eq!(
        h.synthesis_transforms,
        [OperatingPoint::Hop, OperatingPoint::Bop, OperatingPoint::Sop]
    );
    assert_eq!(h.model_id, 2);
    assert_eq!(h.beta_displacement_log, [1548 - 2048, 1548 - 2048]);
    let y = &h.components[0];
    assert!(y.rvs_enabled);
    let grfs = y.grfs_channel_flags.as_ref().unwrap();
    assert_eq!(grfs.len(), 160);
    // 29 ones, 0, 0, 1, 0, 1, 1, 1, 0, 1, 0, 0, 0, 1, then zeros
    let ones: Vec<usize> =
        grfs.iter().enumerate().filter(|(_, f)| **f).map(|(i, _)| i).collect();
    let mut want: Vec<usize> = (0..29).collect();
    want.extend([31, 33, 34, 35, 37, 41]);
    assert_eq!(ones, want);
    let uv = &h.components[1];
    assert!(uv.rvs_enabled);
    let grfs = uv.grfs_channel_flags.as_ref().unwrap();
    assert_eq!(grfs.len(), 96);
    assert_eq!(grfs.iter().filter(|f| **f).count(), 10);
    assert!(grfs[..10].iter().all(|f| *f));
    assert_eq!(h.quality_map, None);
    h.check_conformance().unwrap();
    assert_eq!(h.write().unwrap(), payload);
}

#[test]
fn ton_flags() {
    let pih = PictureHeader::parse(&hex(PIH_BASE_TOOLS_OFF)).unwrap();
    assert_eq!(ToolHeader::parse(&[0x00], &pih).unwrap(), ToolHeader::default());
    assert_eq!(ToolHeader::default().write(&pih).unwrap(), [0x00]);
    let t = ToolHeader { lsbs_enabled: [true, true], ..Default::default() };
    assert_eq!(ToolHeader::parse(&t.write(&pih).unwrap(), &pih).unwrap(), t);
}

/// A tool header with every tool on: all four post-filters carry parameters. Must parse to the end
/// and re-serialise byte for byte.
#[test]
fn ton_all_filters_roundtrip() {
    let pih = PictureHeader::parse(&hex(&PIH_HIGH_TOOLS_ON.replace(char::is_whitespace, "")))
        .unwrap();
    let payload = hex(&TON_HIGH_TOOLS_ON.replace(char::is_whitespace, ""));
    let t = ToolHeader::parse(&payload, &pih).unwrap();
    assert_eq!(t.lsbs_enabled, [true, true]);
    let lin = t.efe_linear.as_ref().unwrap();
    assert!(lin.set.cand.iter().any(Option::is_some));
    assert_eq!(t.icci.as_ref().unwrap().tiles.len(), 1);
    assert!(t.efe_nonlinear.is_some());
    assert!(t.lef_channel.is_some());
    assert!(t.any_post_filter());
    assert_eq!(t.write(&pih).unwrap(), payload);
}

#[test]
fn truncated_tool_headers_are_refused() {
    let pih = PictureHeader::parse(&hex(&PIH_HIGH_TOOLS_ON.replace(char::is_whitespace, "")))
        .unwrap();
    let payload = hex(&TON_HIGH_TOOLS_ON.replace(char::is_whitespace, ""));
    for cut in 0..payload.len() {
        assert!(ToolHeader::parse(&payload[..cut], &pih).is_err(), "cut at {cut}");
    }
}

#[test]
fn rdi_roundtrip() {
    assert_eq!(RenderingInfo::parse(&[0x00]).unwrap(), RenderingInfo::default());
    let info = RenderingInfo {
        cicp: Some(Cicp {
            colour_primaries: 9,
            transfer_characteristics: 16,
            matrix_coefficients: 9,
            full_range: true,
            chroma420_sample_loc_type: 2,
        }),
        mdcv: Some(Mdcv {
            primaries: [(34000, 16000), (13250, 34500), (7500, 3000)],
            white_point: (15635, 16450),
            max_luminance: 10_000_000,
            min_luminance: 50,
        }),
        clli: Some(Clli { max_content_light_level: 1000, max_frame_average_light_level: 400 }),
        display_mapping: Some((3, vec![1, 2, 3, 250])),
    };
    let bytes = info.write().unwrap();
    assert_eq!(RenderingInfo::parse(&bytes).unwrap(), info);
    assert!(RenderingInfo::parse(&[0x01]).is_err(), "reserved bits must be zero");
}

#[test]
fn cut_rendering_information_is_refused() {
    let info = RenderingInfo {
        clli: Some(Clli { max_content_light_level: 1000, max_frame_average_light_level: 400 }),
        display_mapping: Some((3, vec![1, 2, 3, 250])),
        ..Default::default()
    };
    let bytes = info.write().unwrap();
    for cut in 0..bytes.len() {
        assert!(RenderingInfo::parse(&bytes[..cut]).is_err(), "cut at {cut}");
    }
}

#[test]
fn parsed_headers_are_written_back() {
    let picture = PictureHeader::parse(&hex(PIH_BASE_TOOLS_OFF)).unwrap();
    assert_eq!(PictureHeader::parse(&picture.write().unwrap()).unwrap(), picture);
    let tools = ToolHeader::parse(&[0x00], &picture).unwrap();
    assert_eq!(ToolHeader::parse(&tools.write(&picture).unwrap(), &picture).unwrap(), tools);
    // Without its flag the tool is off.
    let halved = PictureHeader { s_ver: 2, s_hor: 2, ..picture };
    assert!(!halved.icci_flag_coded());
    assert_eq!(ToolHeader::parse(&[0x00, 0x00], &halved).unwrap().icci, None);
}

#[test]
fn pih_roundtrip_with_everything() {
    let mut h = PictureHeader::parse(&hex(PIH_BASE_TOOLS_OFF)).unwrap();
    h.width = 4000;
    h.height = 3000;
    h.bit_depth = 10;
    h.s_ver = 2;
    h.s_hor = 2;
    h.c_ver = 2;
    h.c_hor = 2;
    h.colour_transform =
        ColourTransform::Custom { matrix: [1, 2, 3, 4, 5, 6, 7, 8, 9], offset: [16, 128, 128] };
    h.num_threads_z = 8;
    h.beta_displacement_log = [-1069, 702];
    h.regions = Some(Regions {
        num_ver: 3,
        num_hor: 4,
        independent: false,
        hyper_decoder_overlap: 2,
        mcm_overlap: 5,
    });
    let n = h.cube_flag_count(0);
    let flags: Vec<bool> = (0..n).map(|i| i % 11 != 0 && !(40..56).contains(&i)).collect();
    h.components[0].cube_flags = Some(flags);
    h.components[0].num_threads_r = 16;
    h.components[0].synthesis_tiling = Some(SynthesisTiling { tile_size: 1024, overlap: 64 });
    h.components[1].num_chs = 48;
    h.components[1].grfs_channel_flags = Some((0..48).map(|i| i % 3 == 0).collect());
    h.quality_map = Some(QualityMapHeader { num_threads: 4, entropy_index: 5 });
    let bytes = h.write().unwrap();
    assert_eq!(PictureHeader::parse(&bytes).unwrap(), h);
    // truncation anywhere must be an error, never a panic
    for cut in 0..bytes.len() {
        assert!(PictureHeader::parse(&bytes[..cut]).is_err(), "cut at {cut}");
    }
}

#[test]
fn conformance_limits() {
    let mut h = PictureHeader::parse(&hex(PIH_BASE_TOOLS_OFF)).unwrap();
    h.level_idc = 10; // 6.2 MP, model 2 only
    assert_eq!(
        h.check_conformance(),
        Err(Error::NonConforming("model_id not permitted at this level"))
    );
    h.model_id = 2;
    h.check_conformance().unwrap();
    h.width = 4000;
    h.height = 3000;
    assert!(h.check_conformance().is_err());
    h.level_idc = 20;
    h.check_conformance().unwrap();
    h.decoder_profile_id = 0; // simple profile: SOP only, but the default transform is BOP
    assert!(h.check_conformance().is_err());
}

#[test]
fn unwritable_headers_are_refused() {
    let base = PictureHeader::parse(&hex(PIH_BASE_TOOLS_OFF)).unwrap();
    let mut h = base.clone();
    h.width = 63;
    assert_eq!(h.write(), Err(Error::InvalidArgument("picture dimensions out of range")));
    let mut h = base.clone();
    h.bit_depth = 9;
    assert_eq!(
        h.write(),
        Err(Error::InvalidArgument("bit depth must be one of 8, 10, 12, 14, 16"))
    );
    let mut h = base.clone();
    h.synthesis_transforms.clear();
    assert_eq!(h.write(), Err(Error::InvalidArgument("1..=16 synthesis transforms required")));
    let mut h = base.clone();
    h.diff_display_width = 64;
    assert_eq!(h.write(), Err(Error::InvalidArgument("diff_display_* must be below 64")));
    let mut h = base;
    h.components[1].num_chs = 97;
    assert_eq!(
        h.write(),
        Err(Error::InvalidArgument("num_chs exceeds the latent channel count"))
    );
}

#[test]
fn header_numbers_of_the_picture() {
    let mut h = PictureHeader::parse(&hex(PIH_BASE_TOOLS_OFF)).unwrap();
    assert_eq!(h.num_regions(), 1);
    assert_eq!(h.component_size(0), (888, 560));
    h.regions = Some(Regions {
        num_ver: 2,
        num_hor: 3,
        independent: true,
        hyper_decoder_overlap: 0,
        mcm_overlap: 0,
    });
    assert_eq!(h.num_regions(), 6);
    assert_eq!(OperatingPoint::from_id(2), Ok(OperatingPoint::Hop));
    assert_eq!(OperatingPoint::Sop.id(), 0);
    assert!(OperatingPoint::from_id(3).is_err());
}

#[test]
fn headers_of_a_stream_are_read() {
    let mut w = CodestreamWriter::new();
    w.substream(Marker::Pih, &hex(PIH_BASE_TOOLS_OFF)).unwrap();
    w.substream(Marker::Ton, &[0xC0]).unwrap();
    w.substream(Marker::Udi, &[4, 5, 6]).unwrap();
    let bytes = w.finish();
    let cs = Codestream::parse(&bytes).unwrap();
    let h = read_headers(&cs).unwrap();
    assert_eq!((h.picture.width, h.picture.height), (560, 888));
    assert_eq!(h.tools.lsbs_enabled, [true, true]);
    assert_eq!(h.rendering, RenderingInfo::default());
    assert_eq!(h.user_data, Some(vec![4, 5, 6]));
}
