//! What an encode is asked to do, and the picture header that follows from it.

use vstd::prelude::*;

use crate::encoder::tiles;
use crate::error::{Error, Result};
use crate::header::picture;
use crate::header::tools;
use crate::header::{
    ColourTransform, ComponentHeader, OperatingPoint, PictureHeader, Regions, SynthesisTiling,
    ToolHeader, LATENT_CHANNELS,
};
use crate::regions;

verus! {

/// Conformance level: the largest picture-size level and the model set that permits every model.
pub const LEVEL_IDC: u8 = 52;

/// A picture at most this large is not partitioned into regions.
pub const NUM_SAMPLES_IN_REGION: usize = 1_048_576;

/// Overlap of dependent regions for the hyper-decoder, in latent samples.
pub const HYPER_DECODER_OVERLAP: u8 = 2;

/// Overlap of dependent regions for the context model, in latent samples.
pub const MCM_OVERLAP: u8 = 8;

/// Smallest and largest quantiser displacement.
pub const BDL_MIN: i32 = -1069;

/// See [`BDL_MIN`].
pub const BDL_MAX: i32 = 702;

/// Number of trained models.
pub const NUM_MODELS: usize = 4;

/// How a region's residual reaches the codestream.
#[derive(Clone, Copy, Debug, PartialEq, Eq, Structural)]
pub enum RegionMode {
    /// One SORP / SORS substream for all regions, with their sizes at its head. Regions overlap
    /// and their contexts see each other.
    Dependent,
    /// One substream per region, each starting with its index: every region decodes on its own.
    Independent,
}

/// What a single encode is asked to do. The rate is set by `beta_displacement_log`, in
/// sigma-index units (Q7): lower is a lower rate. It is clipped to `[BDL_MIN, BDL_MAX]`.
#[derive(Clone, Copy, Debug, PartialEq, Eq)]
pub struct EncodeParams {
    /// Trained model, 0..=3.
    pub model_id: u8,
    /// Quantiser displacement per component (luma, chroma).
    pub beta_displacement_log: [i32; 2],
    /// Operating point to code for: it selects the analysis transform (BOP for simple and base,
    /// HOP for high), the decoder profile, and the synthesis transforms the stream lists.
    pub op: OperatingPoint,
    /// Residual variance scaling: the quantiser step follows the block-wise sigma map.
    pub rvs: bool,
    /// Channel gain flags; the encoder picks the channels.
    pub grfs: bool,
    /// Latent scaling before synthesis. A decoder-side tool: it is signalled in the tool header
    /// and changes no coded symbol.
    pub lsbs: bool,
    /// ANS threads of the `z` substream (1, 2, 4, 8 or 16).
    pub num_threads_z: u8,
    /// ANS threads of each residual substream (1, 2, 4, 8 or 16).
    pub num_threads_r: u8,
    /// Region partitioning. The grid itself is derived from the picture size; a picture of at
    /// most [`NUM_SAMPLES_IN_REGION`] samples gets no regions whatever this says.
    pub regions: Option<RegionMode>,
}

impl Default for EncodeParams {
    fn default() -> (p: Self)
        ensures
            p.model_id == 1,
            p.beta_displacement_log@ == seq![0i32, 0i32],
            p.op == OperatingPoint::Bop,
            !p.rvs && !p.grfs && !p.lsbs,
            p.num_threads_z == 1,
            p.num_threads_r == 1,
            p.regions is None,
    {
        let p = EncodeParams {
            model_id: 1,
            beta_displacement_log: [0, 0],
            op: OperatingPoint::Bop,
            rvs: false,
            grfs: false,
            lsbs: false,
            num_threads_z: 1,
            num_threads_r: 1,
            regions: None,
        };
        proof {
            assert(p.beta_displacement_log@ =~= seq![0i32, 0i32]);
        }
        p
    }
}

/// A number, or the nearer of two bounds.
pub open spec fn clamped(v: int, min: int, max: int) -> int {
    if v < min {
        min
    } else if v > max {
        max
    } else {
        v
    }
}

/// Number of regions along an axis: one per 1024 samples, at least one, and at most one per
/// `unit` samples.
pub open spec fn regions_along(len: int, unit: int) -> int {
    clamped(len / 1024, 1, tiles::ceil(len, unit))
}

/// `(num_ver, num_hor)`, or `None` when the picture is small enough to do without regions.
pub open spec fn spec_region_counts(height: int, width: int) -> Option<(int, int)> {
    if height * width <= 1_048_576 {
        None
    } else {
        Some((regions_along(height, 256), regions_along(width, 512)))
    }
}

/// `(num_ver, num_hor)`, or `None` when the picture is small enough to do without regions. The
/// counts of a picture that the format can code fit in a byte; of any other picture, their low
/// bytes are returned.
pub fn region_counts(height: usize, width: usize) -> (r: Option<(u8, u8)>)
    requires
        height * width <= usize::MAX,
    ensures
        match spec_region_counts(height as int, width as int) {
            Some((v, h)) => r == Some(((v % 256) as u8, (h % 256) as u8)),
            None => r is None,
        },
        height <= 65599 && width <= 65599 ==> (r matches Some((v, h)) ==> spec_region_counts(
            height as int,
            width as int,
        ) == Some((v as int, h as int)) && 1 <= v <= 64 && 1 <= h <= 64),
{
    if height * width <= NUM_SAMPLES_IN_REGION {
        return None;
    }
    proof {
        assert(height >= 1 && width >= 1) by (nonlinear_arith)
            requires
                height * width > 1_048_576,
                height >= 0,
                width >= 0,
        ;
    }
    let num_hor: usize = clamp_to(width / 1024, tiles::div_up(width, 512));
    let num_ver: usize = clamp_to(height / 1024, tiles::div_up(height, 256));
    Some(((num_ver % 256) as u8, (num_hor % 256) as u8))
}

fn clamp_to(v: usize, max: usize) -> (n: usize)
    requires
        max >= 1,
    ensures
        n == clamped(v as int, 1, max as int),
{
    if v < 1 {
        1
    } else if v > max {
        max
    } else {
        v
    }
}

/// A quantiser displacement within its range.
pub fn clip_beta(b: i32) -> (c: i32)
    ensures
        c == clamped(b as int, -1069, 702),
{
    if b < BDL_MIN {
        BDL_MIN
    } else if b > BDL_MAX {
        BDL_MAX
    } else {
        b
    }
}

/// What is wrong with a picture size and parameters, if anything.
pub open spec fn params_error(width: int, height: int, model_id: u8) -> Option<Error> {
    if model_id >= 4 {
        Some(Error::InvalidArgument("model_id out of range"))
    } else if !(64 <= width <= 65599) || !(64 <= height <= 65599) {
        Some(Error::Unsupported("picture dimensions outside the format's 64..65599"))
    } else if width * height > 120_000_000 {
        Some(Error::Unsupported("picture above 120 MP"))
    } else {
        None
    }
}

/// Check a picture size and parameters; returns the model's index.
pub fn check_params(w: usize, h: usize, params: &EncodeParams) -> (r: Result<usize>)
    ensures
        match params_error(w as int, h as int, params.model_id) {
            Some(e) => r == Err::<usize, Error>(e),
            None => r == Ok::<usize, Error>(params.model_id as usize),
        },
{
    if params.model_id as usize >= NUM_MODELS {
        return Err(Error::InvalidArgument("model_id out of range"));
    }
    if w < 64 || w > 65599 || h < 64 || h > 65599 {
        return Err(Error::Unsupported("picture dimensions outside the format's 64..65599"));
    }
    proof {
        assert(w * h <= 65599 * 65599) by (nonlinear_arith)
            requires
                w <= 65599,
                h <= 65599,
        ;
    }
    if w as u64 * h as u64 > 120_000_000 {
        return Err(Error::Unsupported("picture above 120 MP"));
    }
    Ok(params.model_id as usize)
}

/// The regions of a picture.
pub open spec fn spec_regions(height: int, width: int, mode: Option<RegionMode>) -> Option<Regions> {
    match (mode, spec_region_counts(height, width)) {
        (Some(m), Some((v, h))) => Some(
            Regions {
                num_ver: (v % 256) as u8,
                num_hor: (h % 256) as u8,
                independent: m == RegionMode::Independent,
                hyper_decoder_overlap: if m == RegionMode::Independent {
                    0
                } else {
                    2
                },
                mcm_overlap: if m == RegionMode::Independent {
                    0
                } else {
                    8
                },
            },
        ),
        _ => None,
    }
}

fn regions_of(height: usize, width: usize, mode: Option<RegionMode>) -> (r: Option<Regions>)
    requires
        height * width <= usize::MAX,
    ensures
        r == spec_regions(height as int, width as int, mode),
{
    match mode {
        None => None,
        Some(m) => match region_counts(height, width) {
            None => None,
            Some((num_ver, num_hor)) => {
                let independent: bool = m == RegionMode::Independent;
                Some(
                    Regions {
                        num_ver,
                        num_hor,
                        independent,
                        hyper_decoder_overlap: if independent {
                            0
                        } else {
                            HYPER_DECODER_OVERLAP
                        },
                        mcm_overlap: if independent {
                            0
                        } else {
                            MCM_OVERLAP
                        },
                    },
                )
            },
        },
    }
}

/// The synthesis tiling of a picture.
pub open spec fn spec_tiling(height: int, width: int) -> Option<SynthesisTiling> {
    if height * width <= 1_048_576 {
        None
    } else {
        Some(SynthesisTiling { tile_size: 1024, overlap: 64 })
    }
}

/// Decoder profile and synthesis transforms of an operating point.
pub open spec fn spec_profile(op: OperatingPoint) -> (u8, Seq<OperatingPoint>) {
    match op {
        OperatingPoint::Sop => (0, seq![OperatingPoint::Sop]),
        OperatingPoint::Bop => (1, seq![OperatingPoint::Bop, OperatingPoint::Sop]),
        OperatingPoint::Hop => (
            2,
            seq![OperatingPoint::Hop, OperatingPoint::Bop, OperatingPoint::Sop],
        ),
    }
}

fn profile_of(op: OperatingPoint) -> (r: (u8, Vec<OperatingPoint>))
    ensures
        (r.0, r.1@) == spec_profile(op),
{
    let mut t: Vec<OperatingPoint> = Vec::new();
    let id: u8 = match op {
        OperatingPoint::Sop => {
            t.push(OperatingPoint::Sop);
            0
        },
        OperatingPoint::Bop => {
            t.push(OperatingPoint::Bop);
            t.push(OperatingPoint::Sop);
            1
        },
        OperatingPoint::Hop => {
            t.push(OperatingPoint::Hop);
            t.push(OperatingPoint::Bop);
            t.push(OperatingPoint::Sop);
            2
        },
    };
    proof {
        assert(t@ =~= spec_profile(op).1);
    }
    (id, t)
}

/// The header of a component without side information.
pub open spec fn plain_component(num_threads_r: u8, num_chs: u16, tiling: Option<SynthesisTiling>) -> picture::ComponentView {
    picture::ComponentView {
        num_threads_r,
        num_chs,
        cube_flags: None,
        rvs_enabled: false,
        grfs_channel_flags: None,
        synthesis_tiling: tiling,
    }
}

/// The picture header that parameters give: one region grid, no tools, 8-bit 4:4:4 BT.709.
pub open spec fn spec_picture_header(
    width: u32,
    height: u32,
    model_id: u8,
    beta: (i32, i32),
    params: EncodeParams,
) -> picture::PictureView {
    let (h, w) = (height as int, width as int);
    let profile = spec_profile(params.op);
    picture::PictureView {
        stream_profile_idc: 0,
        decoder_profile_id: profile.0,
        synthesis_transforms: profile.1,
        geometry: picture::Geometry {
            level_idc: 52,
            width,
            height,
            diff_display_width: 0,
            diff_display_height: 0,
            bit_depth: 8,
            s_ver: 1,
            s_hor: 1,
            c_ver: 1,
            c_hor: 1,
        },
        colour_transform: picture::ColourView::Bt709,
        model_id,
        num_threads_z: params.num_threads_z,
        beta,
        regions: spec_regions(h, w, params.regions),
        luma: plain_component(params.num_threads_r, 160, spec_tiling(h, w)),
        chroma: plain_component(params.num_threads_r, 96, spec_tiling(h, w)),
        quality_map: None,
    }
}

fn plain_header(num_threads_r: u8, num_chs: u16, tiling: Option<SynthesisTiling>) -> (c:
    ComponentHeader)
    ensures
        c@ == plain_component(num_threads_r, num_chs, tiling),
{
    ComponentHeader {
        num_threads_r,
        num_chs,
        cube_flags: None,
        rvs_enabled: false,
        grfs_channel_flags: None,
        synthesis_tiling: tiling,
    }
}

fn header_of(
    width: u32,
    height: u32,
    model_id: u8,
    beta_displacement_log: [i32; 2],
    params: &EncodeParams,
    luma: ComponentHeader,
    chroma: ComponentHeader,
) -> (hdr: PictureHeader)
    requires
        height * width <= usize::MAX,
    ensures
        hdr@ == (picture::PictureView {
            luma: luma@,
            chroma: chroma@,
            ..spec_picture_header(
                width,
                height,
                model_id,
                (beta_displacement_log@[0], beta_displacement_log@[1]),
                *params,
            )
        }),
{
    let regions = regions_of(height as usize, width as usize, params.regions);
    let (decoder_profile_id, synthesis_transforms) = profile_of(params.op);
    PictureHeader {
        stream_profile_idc: 0,
        decoder_profile_id,
        synthesis_transforms,
        level_idc: LEVEL_IDC,
        width,
        height,
        diff_display_width: 0,
        diff_display_height: 0,
        bit_depth: 8,
        s_ver: 1,
        s_hor: 1,
        c_ver: 1,
        c_hor: 1,
        colour_transform: ColourTransform::Bt709,
        model_id,
        num_threads_z: params.num_threads_z,
        beta_displacement_log,
        regions,
        components: [luma, chroma],
        quality_map: None,
    }
}

/// The picture header of an encode before the residual is known: the cube flags and the tool
/// flags of the components are filled in later.
pub fn picture_header(
    width: u32,
    height: u32,
    model_id: u8,
    beta_displacement_log: [i32; 2],
    params: &EncodeParams,
) -> (hdr: PictureHeader)
    requires
        height * width <= usize::MAX,
    ensures
        hdr@ == spec_picture_header(
            width,
            height,
            model_id,
            (beta_displacement_log@[0], beta_displacement_log@[1]),
            *params,
        ),
{
    let tiling = tiles::synthesis_tiling(height as usize, width as usize);
    let luma = plain_header(params.num_threads_r, LATENT_CHANNELS[0] as u16, tiling);
    let chroma = plain_header(params.num_threads_r, LATENT_CHANNELS[1] as u16, tiling);
    header_of(width, height, model_id, beta_displacement_log, params, luma, chroma)
}

/// What the quantisation of a component adds to its header.
#[derive(Clone, Debug, PartialEq, Eq)]
pub struct SideInfo {
    /// The cubes that may be skipped, if some may not.
    pub cube_flags: Option<Vec<bool>>,
    /// The channels whose gain is raised, if channel gains are in use.
    pub grfs_channel_flags: Option<Vec<bool>>,
}

/// [`SideInfo`] as a value.
pub struct SideView {
    pub cube_flags: Option<Seq<bool>>,
    pub grfs_channel_flags: Option<Seq<bool>>,
}

impl View for SideInfo {
    type V = SideView;

    open spec fn view(&self) -> SideView {
        SideView {
            cube_flags: regions::flags_view(self.cube_flags),
            grfs_channel_flags: regions::flags_view(self.grfs_channel_flags),
        }
    }
}

/// A component's header with what its quantisation adds.
pub open spec fn with_side(c: picture::ComponentView, rvs: bool, side: SideView) -> picture::ComponentView {
    picture::ComponentView {
        cube_flags: side.cube_flags,
        rvs_enabled: rvs,
        grfs_channel_flags: side.grfs_channel_flags,
        ..c
    }
}

/// The picture header that is written for an encode.
pub open spec fn spec_coded_header(
    width: u32,
    height: u32,
    params: EncodeParams,
    luma: SideView,
    chroma: SideView,
) -> picture::PictureView {
    let beta = params.beta_displacement_log@;
    let plain = spec_picture_header(
        width,
        height,
        params.model_id,
        (clamped(beta[0] as int, -1069, 702) as i32, clamped(beta[1] as int, -1069, 702) as i32),
        params,
    );
    picture::PictureView {
        luma: with_side(plain.luma, params.rvs, luma),
        chroma: with_side(plain.chroma, params.rvs, chroma),
        ..plain
    }
}

/// The picture header that is written for an encode: displacements within their range, and what
/// the quantisation of each component adds.
pub fn coded_header(
    width: usize,
    height: usize,
    params: &EncodeParams,
    luma: SideInfo,
    chroma: SideInfo,
) -> (r: Result<PictureHeader>)
    ensures
        match params_error(width as int, height as int, params.model_id) {
            Some(e) => r == Err::<PictureHeader, Error>(e),
            None => r matches Ok(hdr) && hdr@ == spec_coded_header(
                width as u32,
                height as u32,
                *params,
                luma@,
                chroma@,
            ),
        },
{
    check_params(width, height, params)?;
    let beta: [i32; 2] = [
        clip_beta(params.beta_displacement_log[0]),
        clip_beta(params.beta_displacement_log[1]),
    ];
    proof {
        assert(width * height <= 120_000_000);
        assert(height * width == width * height) by (nonlinear_arith);
    }
    let tiling = tiles::synthesis_tiling(height, width);
    let of_luma = ComponentHeader {
        cube_flags: luma.cube_flags,
        rvs_enabled: params.rvs,
        grfs_channel_flags: luma.grfs_channel_flags,
        ..plain_header(params.num_threads_r, LATENT_CHANNELS[0] as u16, tiling)
    };
    let of_chroma = ComponentHeader {
        cube_flags: chroma.cube_flags,
        rvs_enabled: params.rvs,
        grfs_channel_flags: chroma.grfs_channel_flags,
        ..plain_header(params.num_threads_r, LATENT_CHANNELS[1] as u16, tiling)
    };
    Ok(
        header_of(
            width as u32,
            height as u32,
            params.model_id,
            beta,
            params,
            of_luma,
            of_chroma,
        ),
    )
}

/// The tool header of an encode without post-filters.
pub open spec fn spec_tool_header(params: EncodeParams) -> tools::ToolView {
    tools::ToolView {
        lsbs_enabled: (params.lsbs, params.lsbs),
        efe_linear: None,
        icci: None,
        efe_nonlinear: None,
        lef_channel: None,
    }
}

/// The tool header of an encode without post-filters.
pub fn tool_header(params: &EncodeParams) -> (t: ToolHeader)
    ensures
        t@ == spec_tool_header(*params),
{
    ToolHeader {
        lsbs_enabled: [params.lsbs, params.lsbs],
        efe_linear: None,
        icci: None,
        efe_nonlinear: None,
        lef_channel: None,
    }
}

/// Side information of a component fits a picture: a flag per cube, and a flag per channel.
pub open spec fn side_fits(side: SideView, height: int, width: int, ccs: int) -> bool {
    &&& side.cube_flags matches Some(f) ==> f.len() == picture::spec_cube_flag_count(
        height,
        width,
        ccs,
    )
    &&& side.grfs_channel_flags matches Some(f) ==> f.len() == picture::latent_channels(ccs)
}

/// The header of every encode that the parameters allow conforms to its profile and level.
pub proof fn law_encodes_conform(width: u32, height: u32, beta: (i32, i32), params: EncodeParams)
    requires
        params_error(width as int, height as int, params.model_id) is None,
    ensures
        picture::conformance_error(
            spec_picture_header(width, height, params.model_id, beta, params),
        ) is None,
{
}

/// The header of a component with its side information can be written.
proof fn lemma_component_codable(
    height: int,
    width: int,
    params: EncodeParams,
    side: SideView,
    ccs: int,
)
    requires
        0 <= ccs < 2,
        picture::thread_count_ok(params.num_threads_r),
        side_fits(side, height, width, ccs),
    ensures
        ({
            let chs: u16 = if ccs == 0 {
                160
            } else {
                96
            };
            let plain = plain_component(params.num_threads_r, chs, spec_tiling(height, width));
            picture::component_error(
                with_side(plain, params.rvs, side),
                height,
                width,
                ccs,
            ) is None
        }),
{
    assert(picture::tiling_error(spec_tiling(height, width)) is None);
}

/// The regions of a picture that the format can code can be written and read back.
proof fn lemma_regions_codable(height: int, width: int, mode: Option<RegionMode>)
    requires
        64 <= height <= 65599,
        64 <= width <= 65599,
    ensures
        spec_regions(height, width, mode) matches Some(r) ==> picture::regions_codable(
            r,
            height,
            width,
        ),
{
    let (v, h) = (regions_along(height, 256), regions_along(width, 512));
    assert(1 <= v <= 64 && v <= picture::ceil_of(height, 256));
    assert(1 <= h <= 64 && h <= picture::ceil_of(width, 512));
    assert(v % 256 == v && h % 256 == h);
}

/// The header that is written for an encode counts from one.
pub proof fn lemma_counts_from_one(
    width: u32,
    height: u32,
    params: EncodeParams,
    luma: SideView,
    chroma: SideView,
)
    requires
        params_error(width as int, height as int, params.model_id) is None,
    ensures
        picture::counts_from_one(spec_coded_header(width, height, params, luma, chroma)),
{
    lemma_regions_codable(height as int, width as int, params.regions);
}

/// The header that is written for an encode holds what a parsed one can hold, and conforms to its
/// profile and level.
pub proof fn lemma_header_codable(
    width: u32,
    height: u32,
    params: EncodeParams,
    luma: SideView,
    chroma: SideView,
)
    requires
        params_error(width as int, height as int, params.model_id) is None,
    ensures
        ({
            let v = spec_coded_header(width, height, params, luma, chroma);
            &&& picture::picture_codable(v)
            &&& picture::conformance_error(v) is None
        }),
{
    let v = spec_coded_header(width, height, params, luma, chroma);
    lemma_regions_codable(height as int, width as int, params.regions);
    law_encodes_conform(width, height, v.beta, params);
}

/// The header that is written for an encode can be written and read back, and conforms to its
/// profile and level, whatever the parameters allow and the quantisation adds.
pub proof fn law_coded_header_is_codable(
    width: u32,
    height: u32,
    params: EncodeParams,
    luma: SideView,
    chroma: SideView,
)
    requires
        params_error(width as int, height as int, params.model_id) is None,
        picture::thread_count_ok(params.num_threads_z),
        picture::thread_count_ok(params.num_threads_r),
        side_fits(luma, height as int, width as int, 0),
        side_fits(chroma, height as int, width as int, 1),
    ensures
        ({
            let v = spec_coded_header(width, height, params, luma, chroma);
            &&& picture::picture_error(v) is None
            &&& picture::picture_codable(v)
            &&& picture::conformance_error(v) is None
            &&& picture::counts_from_one(v)
        }),
{
    let v = spec_coded_header(width, height, params, luma, chroma);
    let (h, w) = (height as int, width as int);
    lemma_component_codable(h, w, params, luma, 0);
    lemma_component_codable(h, w, params, chroma, 1);
    lemma_header_codable(width, height, params, luma, chroma);
    lemma_counts_from_one(width, height, params, luma, chroma);
    assert(picture::displacement_ok(v.beta.0) && picture::displacement_ok(v.beta.1));
    assert(picture::picture_error(v) is None);
}

} // verus!
