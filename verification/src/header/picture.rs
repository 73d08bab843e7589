//! Picture header (PIH).
//!
//! ```text
//! profile, transforms | level, size, sampling | colour transform | model, z threads, beta[0]
//! | regions | beta[1] | per component: threads r, num_chs, cube flags, rvs/grfs, synthesis
//! tiling | quality map
//! ```

use vstd::prelude::*;
use vstd::arithmetic::power2;

use crate::bitio;
use crate::bitio::{BitReader, BitWriter};
use crate::bits;
use crate::error::{Error, Result};
use crate::header::rendering;

verus! {

/// Luma / chroma latent channel counts.
pub const LATENT_CHANNELS: [usize; 2] = [160, 96];

/// Latent channels of a component.
pub open spec fn latent_channels(ccs: int) -> nat {
    if ccs == 0 {
        160
    } else {
        96
    }
}

/// Synthesis transform selected by `synthesis_transform_id`.
#[derive(Clone, Copy, Debug, PartialEq, Eq, Hash, Structural)]
pub enum OperatingPoint {
    /// Simple operating point (id 0).
    Sop,
    /// Base operating point (id 1).
    Bop,
    /// High operating point (id 2).
    Hop,
}

impl OperatingPoint {
    /// The number that stands for the operating point in a stream.
    pub open spec fn spec_id(self) -> nat {
        match self {
            OperatingPoint::Sop => 0,
            OperatingPoint::Bop => 1,
            OperatingPoint::Hop => 2,
        }
    }

    /// The operating point that a number stands for.
    pub open spec fn of_id(id: u32) -> Option<OperatingPoint> {
        if id == 0 {
            Some(OperatingPoint::Sop)
        } else if id == 1 {
            Some(OperatingPoint::Bop)
        } else if id == 2 {
            Some(OperatingPoint::Hop)
        } else {
            None
        }
    }

    /// The number that stands for the operating point in a stream.
    pub fn id(self) -> (id: u32)
        ensures
            id == self.spec_id(),
            OperatingPoint::of_id(id) == Some(self),
    {
        match self {
            OperatingPoint::Sop => 0,
            OperatingPoint::Bop => 1,
            OperatingPoint::Hop => 2,
        }
    }

    /// The operating point with this id.
    pub fn from_id(id: u32) -> (r: Result<Self>)
        ensures
            match OperatingPoint::of_id(id) {
                Some(op) => r == Ok::<OperatingPoint, Error>(op),
                None => r == Err::<OperatingPoint, Error>(
                    Error::InvalidData("unknown synthesis_transform_id"),
                ),
            },
    {
        match id {
            0 => Ok(OperatingPoint::Sop),
            1 => Ok(OperatingPoint::Bop),
            2 => Ok(OperatingPoint::Hop),
            _ => Err(Error::InvalidData("unknown synthesis_transform_id")),
        }
    }
}

/// `colour_transform_idx` and its parameters.
#[derive(Clone, Debug, PartialEq, Eq)]
pub enum ColourTransform {
    /// 0: the coded components are output as they are (YUV in, YUV out).
    Plain,
    /// 1: BT.709 YCbCr, converted to RGB on output.
    Bt709,
    /// 2: user-defined 3x3 matrix and offsets (8 bits each).
    Custom {
        /// Row-major 3x3 colour transform matrix, 8-bit fixed-point entries.
        matrix: [u8; 9],
        /// Per-channel offset applied after the matrix, 8-bit fixed-point.
        offset: [u8; 3],
    },
}

/// A colour transform as a value; a custom one is its nine matrix entries and three offsets.
pub enum ColourView {
    Plain,
    Bt709,
    Custom(Seq<u8>),
}

impl View for ColourTransform {
    type V = ColourView;

    open spec fn view(&self) -> ColourView {
        match *self {
            ColourTransform::Plain => ColourView::Plain,
            ColourTransform::Bt709 => ColourView::Bt709,
            ColourTransform::Custom { matrix, offset } => ColourView::Custom(matrix@ + offset@),
        }
    }
}

/// Region partitioning of the residual substreams.
#[derive(Clone, Copy, Debug, PartialEq, Eq, Structural)]
pub struct Regions {
    /// Number of region rows.
    pub num_ver: u8,
    /// Number of region columns.
    pub num_hor: u8,
    /// `region_residual_in_its_own_substream_flag`.
    pub independent: bool,
    /// `hyper_decoder_overlap_in_latent_samples` (dependent regions only; else 0).
    pub hyper_decoder_overlap: u8,
    /// `mcm_overlap_in_latent_samples` (dependent regions only; else 0).
    pub mcm_overlap: u8,
}

/// Synthesis tiling parameters (`synthesis_tile_enable`).
#[derive(Clone, Copy, Debug, PartialEq, Eq, Structural)]
pub struct SynthesisTiling {
    /// Tile size in luma samples (multiple of 16).
    pub tile_size: u32,
    /// Overlap between neighbouring tiles in luma samples (multiple of 16).
    pub overlap: u32,
}

/// Per-component (luma, chroma) part of the picture header.
#[derive(Clone, Debug, PartialEq, Eq)]
pub struct ComponentHeader {
    /// ANS threads of the residual substream: 1, 2, 4, 8 or 16.
    pub num_threads_r: u8,
    /// Number of latent channels present in the stream (`num_chs`).
    pub num_chs: u16,
    /// Skip-mode cube flags, `[phase][cube_y][cube_x]` flattened; `None` means all cubes skip.
    pub cube_flags: Option<Vec<bool>>,
    /// Whether residual variance scaling is enabled for this component.
    pub rvs_enabled: bool,
    /// Channel-wise gain flags (`grfs_channel_flag`), one per coded channel, if enabled.
    pub grfs_channel_flags: Option<Vec<bool>>,
    /// Synthesis tiling for this component, if the stream tiles it.
    pub synthesis_tiling: Option<SynthesisTiling>,
}

/// The per-component part of the picture header as a value.
pub struct ComponentView {
    pub num_threads_r: u8,
    pub num_chs: u16,
    pub cube_flags: Option<Seq<bool>>,
    pub rvs_enabled: bool,
    pub grfs_channel_flags: Option<Seq<bool>>,
    pub synthesis_tiling: Option<SynthesisTiling>,
}

/// Optional flags as a value.
pub open spec fn flags_view(flags: Option<Vec<bool>>) -> Option<Seq<bool>> {
    match flags {
        Some(f) => Some(f@),
        None => None,
    }
}

impl View for ComponentHeader {
    type V = ComponentView;

    open spec fn view(&self) -> ComponentView {
        ComponentView {
            num_threads_r: self.num_threads_r,
            num_chs: self.num_chs,
            cube_flags: flags_view(self.cube_flags),
            rvs_enabled: self.rvs_enabled,
            grfs_channel_flags: flags_view(self.grfs_channel_flags),
            synthesis_tiling: self.synthesis_tiling,
        }
    }
}

/// Quality-map (spatially varying quantisation) signalling.
#[derive(Clone, Copy, Debug, PartialEq, Eq, Structural)]
pub struct QualityMapHeader {
    /// ANS threads of the quality-map substream: 1, 2, 4, 8 or 16.
    pub num_threads: u8,
    /// `quality_map_entropy_index`: selects the sigma used to code the map.
    pub entropy_index: u8,
}

/// Decoded picture header.
#[derive(Clone, Debug, PartialEq, Eq)]
pub struct PictureHeader {
    /// Stream profile indicator (`stream_profile_idc`).
    pub stream_profile_idc: u8,
    /// 0 simple, 1 base, 2 high.
    pub decoder_profile_id: u8,
    /// Synthesis transforms the stream may be decoded with; the first is the default.
    pub synthesis_transforms: Vec<OperatingPoint>,
    /// Conformance level indicator (`level_idc`).
    pub level_idc: u8,
    /// Coded picture size in luma samples.
    pub width: u32,
    /// Coded picture height in luma samples.
    pub height: u32,
    /// Columns / rows at the right / bottom of the coded picture that are not displayed.
    pub diff_display_width: u8,
    /// See `diff_display_width`, for the bottom rows.
    pub diff_display_height: u8,
    /// Bits per sample (values in `[0, 2^bit_depth - 1]`).
    pub bit_depth: u8,
    /// Source chroma subsampling factors (1 or 2).
    pub s_ver: u8,
    /// See `s_ver`, horizontal factor.
    pub s_hor: u8,
    /// Coded chroma subsampling factors (1 or 2).
    pub c_ver: u8,
    /// See `c_ver`, horizontal factor.
    pub c_hor: u8,
    /// How the coded components map to displayed colour.
    pub colour_transform: ColourTransform,
    /// Index of the trained model (beta) the stream was coded with.
    pub model_id: u8,
    /// ANS threads of the hyper-latent (`z`) substream: 1, 2, 4, 8 or 16.
    pub num_threads_z: u8,
    /// `beta_displacement_log` per component (already offset by -2048).
    pub beta_displacement_log: [i32; 2],
    /// Region partitioning of the residual substreams, if the stream uses regions.
    pub regions: Option<Regions>,
    /// Per-component (luma, chroma) header, in that order.
    pub components: [ComponentHeader; 2],
    /// Spatially varying quantisation signalling, if the stream uses a quality map.
    pub quality_map: Option<QualityMapHeader>,
}

/// Level, size and sampling of a picture.
#[derive(Clone, Copy, Debug, PartialEq, Eq, Structural)]
pub struct Geometry {
    pub level_idc: u8,
    pub width: u32,
    pub height: u32,
    pub diff_display_width: u8,
    pub diff_display_height: u8,
    pub bit_depth: u8,
    pub s_ver: u8,
    pub s_hor: u8,
    pub c_ver: u8,
    pub c_hor: u8,
}

/// A picture header as a value.
pub struct PictureView {
    pub stream_profile_idc: u8,
    pub decoder_profile_id: u8,
    pub synthesis_transforms: Seq<OperatingPoint>,
    pub geometry: Geometry,
    pub colour_transform: ColourView,
    pub model_id: u8,
    pub num_threads_z: u8,
    pub beta: (i32, i32),
    pub regions: Option<Regions>,
    pub luma: ComponentView,
    pub chroma: ComponentView,
    pub quality_map: Option<QualityMapHeader>,
}

impl PictureHeader {
    /// Level, size and sampling of the picture.
    pub open spec fn geometry(&self) -> Geometry {
        Geometry {
            level_idc: self.level_idc,
            width: self.width,
            height: self.height,
            diff_display_width: self.diff_display_width,
            diff_display_height: self.diff_display_height,
            bit_depth: self.bit_depth,
            s_ver: self.s_ver,
            s_hor: self.s_hor,
            c_ver: self.c_ver,
            c_hor: self.c_hor,
        }
    }
}

impl View for PictureHeader {
    type V = PictureView;

    open spec fn view(&self) -> PictureView {
        PictureView {
            stream_profile_idc: self.stream_profile_idc,
            decoder_profile_id: self.decoder_profile_id,
            synthesis_transforms: self.synthesis_transforms@,
            geometry: self.geometry(),
            colour_transform: self.colour_transform@,
            model_id: self.model_id,
            num_threads_z: self.num_threads_z,
            beta: (self.beta_displacement_log@[0], self.beta_displacement_log@[1]),
            regions: self.regions,
            luma: self.components@[0]@,
            chroma: self.components@[1]@,
            quality_map: self.quality_map,
        }
    }
}

/// Quotient rounded up.
pub open spec fn ceil_of(a: int, b: int) -> int {
    (a + b - 1) / b
}

/// Quotient rounded up.
pub fn ceil_div(a: u32, b: u32) -> (q: u32)
    requires
        b > 0,
    ensures
        q == ceil_of(a as int, b as int),
{
    let q: u32 = a / b;
    let r: u32 = a % b;
    proof {
        vstd::arithmetic::div_mod::lemma_fundamental_div_mod(a as int, b as int);
        let (x, y) = (a as int, b as int);
        if r == 0 {
            vstd::arithmetic::div_mod::lemma_fundamental_div_mod_converse(
                x + y - 1,
                y,
                x / y,
                y - 1,
            );
        } else {
            assert(x + y - 1 == y * (x / y + 1) + (x % y - 1)) by (nonlinear_arith)
                requires
                    x == y * (x / y) + x % y,
            ;
            vstd::arithmetic::div_mod::lemma_fundamental_div_mod_converse(
                x + y - 1,
                y,
                x / y + 1,
                x % y - 1,
            );
            assert(q < u32::MAX) by (nonlinear_arith)
                requires
                    a == b * q + r,
                    r > 0,
                    r < b,
                    a <= u32::MAX,
            ;
        }
    }
    if r == 0 {
        q
    } else {
        q + 1
    }
}

/// Size (height, width) of component `ccs`'s picture as the core model sees it: the luma size for
/// luma, half of it (rounded up) for chroma.
pub open spec fn spec_component_size(height: int, width: int, ccs: int) -> (int, int) {
    if ccs == 0 {
        (height, width)
    } else {
        (ceil_of(height, 2), ceil_of(width, 2))
    }
}

/// Latent size of a component: picture size / 16 for luma, half-size picture / 8 for chroma.
pub open spec fn spec_latent_size(height: int, width: int, ccs: int) -> (int, int) {
    let (h, w) = spec_component_size(height, width, ccs);
    let div = if ccs == 0 {
        16int
    } else {
        8
    };
    (ceil_of(h, div), ceil_of(w, div))
}

/// Hyper-latent size of a component: picture size / 64 for luma, half-size picture / 32 for
/// chroma.
pub open spec fn spec_hyper_latent_size(height: int, width: int, ccs: int) -> (int, int) {
    let (h, w) = spec_component_size(height, width, ccs);
    let div = if ccs == 0 {
        64int
    } else {
        32
    };
    (ceil_of(h, div), ceil_of(w, div))
}

/// Number of skip-mode cube flags of a component: 4 phases of `ceil(ceil(h/2)/8)` rows.
pub open spec fn spec_cube_flag_count(height: int, width: int, ccs: int) -> int {
    let (h, w) = spec_latent_size(height, width, ccs);
    4 * (ceil_of(ceil_of(h, 2), 8) * ceil_of(ceil_of(w, 2), 8))
}

impl PictureHeader {
    /// Whether the coded chroma planes have the source's chroma resolution in both directions.
    pub fn efe_coded_444(&self) -> (b: bool)
        ensures
            b == (self.c_ver == self.s_ver && self.c_hor == self.s_hor),
    {
        self.c_ver == self.s_ver && self.c_hor == self.s_hor
    }

    /// Whether the tool header carries `icci_enable_flag`: not for 4:2:0 sources.
    pub fn icci_flag_coded(&self) -> (b: bool)
        ensures
            b == (self.s_ver == 1 || self.s_hor == 1),
    {
        self.s_ver == 1 || self.s_hor == 1
    }

    /// Size of component `ccs`'s picture as the core model sees it: the luma size for luma,
    /// half of it (rounded up) for chroma.
    pub fn component_size(&self, ccs: usize) -> (size: (u32, u32))
        ensures
            (size.0 as int, size.1 as int) == spec_component_size(
                self.height as int,
                self.width as int,
                ccs as int,
            ),
    {
        if ccs == 0 {
            (self.height, self.width)
        } else {
            (ceil_div(self.height, 2), ceil_div(self.width, 2))
        }
    }

    /// Latent (`y`) size of a component: picture size / 16 for luma, half-size picture / 8 for
    /// chroma.
    pub fn latent_size(&self, ccs: usize) -> (size: (u32, u32))
        ensures
            (size.0 as int, size.1 as int) == spec_latent_size(
                self.height as int,
                self.width as int,
                ccs as int,
            ),
    {
        let (h, w): (u32, u32) = self.component_size(ccs);
        let div: u32 = if ccs == 0 { 16 } else { 8 };
        (ceil_div(h, div), ceil_div(w, div))
    }

    /// Hyper-latent (`z`) size: one quarter of the latent size, rounded up from the picture.
    pub fn hyper_latent_size(&self, ccs: usize) -> (size: (u32, u32))
        ensures
            (size.0 as int, size.1 as int) == spec_hyper_latent_size(
                self.height as int,
                self.width as int,
                ccs as int,
            ),
    {
        let (h, w): (u32, u32) = self.component_size(ccs);
        let div: u32 = if ccs == 0 { 64 } else { 32 };
        (ceil_div(h, div), ceil_div(w, div))
    }

    /// Number of regions the residual substreams are split into.
    pub fn num_regions(&self) -> (n: usize)
        ensures
            n == match self.regions {
                Some(r) => r.num_ver as int * r.num_hor as int,
                None => 1,
            },
    {
        match self.regions {
            Some(r) => {
                proof {
                    assert(r.num_ver as int * r.num_hor as int <= 255 * 255) by (nonlinear_arith)
                        requires
                            r.num_ver <= 255,
                            r.num_hor <= 255,
                    ;
                }
                r.num_ver as usize * r.num_hor as usize
            },
            None => 1,
        }
    }
}

/// Number of skip-mode cube flags of a component of a picture of this size.
pub fn cube_flag_count(height: u32, width: u32, ccs: usize) -> (n: usize)
    requires
        spec_cube_flag_count(height as int, width as int, ccs as int) <= usize::MAX,
    ensures
        n == spec_cube_flag_count(height as int, width as int, ccs as int),
{
    let (h, w): (u32, u32) = if ccs == 0 {
        (height, width)
    } else {
        (ceil_div(height, 2), ceil_div(width, 2))
    };
    let div: u32 = if ccs == 0 { 16 } else { 8 };
    let cube_h: u32 = ceil_div(ceil_div(ceil_div(h, div), 2), 8);
    let cube_w: u32 = ceil_div(ceil_div(ceil_div(w, div), 2), 8);
    proof {
        let (a, b) = (cube_h as int, cube_w as int);
        assert(a * b <= 4 * (a * b)) by (nonlinear_arith)
            requires
                a >= 0,
                b >= 0,
        ;
    }
    4 * (cube_h as usize * cube_w as usize)
}

impl PictureHeader {
    /// Number of skip-mode cube flags of a component.
    pub fn cube_flag_count(&self, ccs: usize) -> (n: usize)
        requires
            spec_cube_flag_count(self.height as int, self.width as int, ccs as int) <= usize::MAX,
        ensures
            n == spec_cube_flag_count(self.height as int, self.width as int, ccs as int),
    {
        cube_flag_count(self.height, self.width, ccs)
    }
}

/// `count` transform ids behind the `acc` that have been read, four bits each.
pub open spec fn spec_transforms(
    s: Seq<bool>,
    pos: int,
    count: nat,
    acc: Seq<OperatingPoint>,
) -> bitio::Parsed<Seq<OperatingPoint>>
    decreases count,
{
    if count == 0 {
        Ok((acc, pos))
    } else if pos + 4 > s.len() {
        Err(Error::UnexpectedEof)
    } else {
        match OperatingPoint::of_id(bitio::field(s, pos, 4)) {
            None => Err(Error::InvalidData("unknown synthesis_transform_id")),
            Some(op) => spec_transforms(s, pos + 4, (count - 1) as nat, acc.push(op)),
        }
    }
}

/// Level, size and sampling at a position. The coded chroma factors are there only where the
/// source is not subsampled.
#[verifier::opaque]
pub open spec fn spec_geometry(s: Seq<bool>, pos: int) -> bitio::Parsed<Geometry> {
    if pos + 55 > s.len() {
        Err(Error::UnexpectedEof)
    } else if bitio::field(s, pos + 52, 3) > 1 {
        Err(Error::InvalidData("bit_depth_idc: only 8 and 10 bit are defined"))
    } else if pos + 57 > s.len() {
        Err(Error::UnexpectedEof)
    } else {
        let ver = s[pos + 55];
        let hor = s[pos + 56];
        let at_hor = if ver {
            pos + 57
        } else {
            pos + 58
        };
        let end = if hor {
            at_hor
        } else {
            at_hor + 1
        };
        if end > s.len() {
            Err(Error::UnexpectedEof)
        } else {
            Ok(
                (
                    Geometry {
                        level_idc: bitio::field(s, pos, 8) as u8,
                        width: (bitio::field(s, pos + 8, 16) + 64) as u32,
                        height: (bitio::field(s, pos + 24, 16) + 64) as u32,
                        diff_display_width: bitio::field(s, pos + 40, 6) as u8,
                        diff_display_height: bitio::field(s, pos + 46, 6) as u8,
                        bit_depth: if bitio::field(s, pos + 52, 3) == 0 {
                            8
                        } else {
                            10
                        },
                        s_ver: if ver {
                            2
                        } else {
                            1
                        },
                        s_hor: if hor {
                            2
                        } else {
                            1
                        },
                        c_ver: if ver || s[pos + 57] {
                            2
                        } else {
                            1
                        },
                        c_hor: if hor || s[at_hor] {
                            2
                        } else {
                            1
                        },
                    },
                    end,
                ),
            )
        }
    }
}

/// The colour transform at a position.
#[verifier::opaque]
pub open spec fn spec_colour(s: Seq<bool>, pos: int) -> bitio::Parsed<ColourView> {
    if pos + 2 > s.len() {
        Err(Error::UnexpectedEof)
    } else {
        let idx = bitio::field(s, pos, 2);
        if idx == 0 {
            Ok((ColourView::Plain, pos + 2))
        } else if idx == 1 {
            Ok((ColourView::Bt709, pos + 2))
        } else if idx == 2 {
            if pos + 2 + 96 > s.len() {
                Err(Error::UnexpectedEof)
            } else {
                Ok(
                    (
                        ColourView::Custom(
                            Seq::new(12, |i: int| bitio::field(s, pos + 2 + 8 * i, 8) as u8),
                        ),
                        pos + 2 + 96,
                    ),
                )
            }
        } else {
            Err(Error::InvalidData("colour_transform_idx out of range"))
        }
    }
}

/// A thread count at a position: one, or a flag and the exponent of a power of two.
#[verifier::opaque]
pub open spec fn spec_threads(s: Seq<bool>, pos: int) -> bitio::Parsed<u8> {
    if pos + 1 > s.len() {
        Err(Error::UnexpectedEof)
    } else if !s[pos] {
        Ok((1, pos + 1))
    } else if pos + 3 > s.len() {
        Err(Error::UnexpectedEof)
    } else {
        let e = bitio::field(s, pos + 1, 2);
        Ok(
            (
                if e == 0 {
                    2
                } else if e == 1 {
                    4
                } else if e == 2 {
                    8
                } else {
                    16
                },
                pos + 3,
            ),
        )
    }
}

/// The regions at a position, of a picture of this size.
#[verifier::opaque]
pub open spec fn spec_regions(s: Seq<bool>, pos: int, height: int, width: int) -> bitio::Parsed<
    Option<Regions>,
> {
    if pos + 1 > s.len() {
        Err(Error::UnexpectedEof)
    } else if !s[pos] {
        Ok((None, pos + 1))
    } else if pos + 15 > s.len() {
        Err(Error::UnexpectedEof)
    } else {
        let num_ver = bitio::field(s, pos + 1, 7) + 1;
        let num_hor = bitio::field(s, pos + 8, 7) + 1;
        if num_ver > ceil_of(height, 256) || num_hor > ceil_of(width, 512) {
            Err(Error::InvalidData("more regions than the picture size allows"))
        } else if pos + 16 > s.len() {
            Err(Error::UnexpectedEof)
        } else if s[pos + 15] {
            Ok(
                (
                    Some(
                        Regions {
                            num_ver: num_ver as u8,
                            num_hor: num_hor as u8,
                            independent: true,
                            hyper_decoder_overlap: 0,
                            mcm_overlap: 0,
                        },
                    ),
                    pos + 16,
                ),
            )
        } else if pos + 22 > s.len() {
            Err(Error::UnexpectedEof)
        } else {
            Ok(
                (
                    Some(
                        Regions {
                            num_ver: num_ver as u8,
                            num_hor: num_hor as u8,
                            independent: false,
                            hyper_decoder_overlap: bitio::field(s, pos + 16, 2) as u8,
                            mcm_overlap: bitio::field(s, pos + 18, 4) as u8,
                        },
                    ),
                    pos + 22,
                ),
            )
        }
    }
}

/// The 12-bit displacement at a position, offset by 2048.
pub open spec fn displacement(s: Seq<bool>, pos: int) -> i32 {
    (bitio::field(s, pos, 12) - 2048) as i32
}

/// The chroma displacement at a position: a flag, and a displacement of its own if it is set.
#[verifier::opaque]
pub open spec fn spec_beta1(s: Seq<bool>, pos: int, beta0: i32) -> bitio::Parsed<i32> {
    if pos + 1 > s.len() {
        Err(Error::UnexpectedEof)
    } else if !s[pos] {
        Ok((beta0, pos + 1))
    } else if pos + 13 > s.len() {
        Err(Error::UnexpectedEof)
    } else {
        Ok((displacement(s, pos + 1), pos + 13))
    }
}

/// `n` flags that are all set.
pub open spec fn all_set(n: nat) -> Seq<bool> {
    Seq::new(n, |i: int| true)
}

/// Cube flags behind the `acc` that have been read, up to `count`: groups of eight (the last one
/// may be shorter) behind a group flag; a cleared group flag means that the group is all set.
pub open spec fn spec_cube_flags(s: Seq<bool>, pos: int, count: nat, acc: Seq<bool>) -> bitio::Parsed<
    Seq<bool>,
>
    decreases count - acc.len(),
{
    if acc.len() >= count {
        Ok((acc, pos))
    } else {
        let n = if count - acc.len() < 8 {
            (count - acc.len()) as nat
        } else {
            8
        };
        if pos + 1 > s.len() {
            Err(Error::UnexpectedEof)
        } else if !s[pos] {
            spec_cube_flags(s, pos + 1, count, acc + all_set(n))
        } else if pos < 0 || pos + 1 + n > s.len() {
            Err(Error::UnexpectedEof)
        } else {
            spec_cube_flags(s, pos + 1 + n, count, acc + s.subrange(pos + 1, pos + 1 + n))
        }
    }
}

/// `n` flags at a position.
pub open spec fn spec_flags(s: Seq<bool>, pos: int, n: nat) -> bitio::Parsed<Seq<bool>> {
    if pos + n > s.len() {
        Err(Error::UnexpectedEof)
    } else {
        Ok((s.subrange(pos, pos + n), pos + n))
    }
}

/// Something that is there if the bit before it is set.
pub open spec fn flagged<T>(
    s: Seq<bool>,
    pos: int,
    parsed: bitio::Parsed<T>,
) -> bitio::Parsed<Option<T>> {
    if pos + 1 > s.len() {
        Err(Error::UnexpectedEof)
    } else {
        rendering::optional(s[pos], parsed, pos + 1)
    }
}

/// A tile size and an overlap at a position, in units of 16; `zero` is what a zero size is
/// answered with.
#[verifier::opaque]
pub open spec fn spec_tiling(s: Seq<bool>, pos: int, zero: &'static str) -> bitio::Parsed<
    SynthesisTiling,
> {
    if pos + 13 > s.len() {
        Err(Error::UnexpectedEof)
    } else if bitio::field(s, pos, 8) == 0 {
        Err(Error::InvalidData(zero))
    } else {
        Ok(
            (
                SynthesisTiling {
                    tile_size: (bitio::field(s, pos, 8) * 16) as u32,
                    overlap: (bitio::field(s, pos + 8, 5) * 16) as u32,
                },
                pos + 13,
            ),
        )
    }
}

/// Channel count at a position: eight bits, no more than there are latent channels.
pub open spec fn channels_at(s: Seq<bool>, pos: int, ccs: int) -> u16 {
    let n = bitio::field(s, pos, 8);
    if n < latent_channels(ccs) {
        n as u16
    } else {
        latent_channels(ccs) as u16
    }
}

/// The header of component `ccs` at a position, of a picture of this size.
#[verifier::opaque]
pub open spec fn spec_component(s: Seq<bool>, pos: int, height: int, width: int, ccs: int)
    -> bitio::Parsed<ComponentView> {
    match spec_threads(s, pos) {
        Err(e) => Err(e),
        Ok((num_threads_r, p1)) => if p1 + 8 > s.len() {
            Err(Error::UnexpectedEof)
        } else {
            let num_chs = channels_at(s, p1, ccs);
            let count = spec_cube_flag_count(height, width, ccs) as nat;
            match flagged(s, p1 + 8, spec_cube_flags(s, p1 + 9, count, Seq::empty())) {
                Err(e) => Err(e),
                Ok((cube_flags, p2)) => if p2 + 1 > s.len() {
                    Err(Error::UnexpectedEof)
                } else {
                    match flagged(s, p2 + 1, spec_flags(s, p2 + 2, num_chs as nat)) {
                        Err(e) => Err(e),
                        Ok((grfs_channel_flags, p3)) => match flagged(
                            s,
                            p3,
                            spec_tiling(s, p3 + 1, "synthesis_tile_size is zero"),
                        ) {
                            Err(e) => Err(e),
                            Ok((synthesis_tiling, p4)) => Ok(
                                (
                                    ComponentView {
                                        num_threads_r,
                                        num_chs,
                                        cube_flags,
                                        rvs_enabled: s[p2],
                                        grfs_channel_flags,
                                        synthesis_tiling,
                                    },
                                    p4,
                                ),
                            ),
                        },
                    }
                },
            }
        },
    }
}

/// The quality map at a position.
#[verifier::opaque]
pub open spec fn spec_quality_map(s: Seq<bool>, pos: int) -> bitio::Parsed<QualityMapHeader> {
    match spec_threads(s, pos) {
        Err(e) => Err(e),
        Ok((num_threads, p)) => if p + 3 > s.len() {
            Err(Error::UnexpectedEof)
        } else {
            Ok(
                (
                    QualityMapHeader { num_threads, entropy_index: bitio::field(s, p, 3) as u8 },
                    p + 3,
                ),
            )
        },
    }
}

/// What [`PictureHeader::parse`] makes of a bit string.
pub open spec fn spec_picture(s: Seq<bool>) -> bitio::Parsed<PictureView> {
    if s.len() < 12 {
        Err(Error::UnexpectedEof)
    } else {
        match spec_transforms(s, 12, bitio::field(s, 8, 4) as nat + 1, Seq::empty()) {
            Err(e) => Err(e),
            Ok((synthesis_transforms, p1)) => match spec_geometry(s, p1) {
                Err(e) => Err(e),
                Ok((geometry, p2)) => match spec_colour(s, p2) {
                    Err(e) => Err(e),
                    Ok((colour_transform, p3)) => spec_coding(
                        s,
                        p3,
                        bitio::field(s, 0, 4) as u8,
                        bitio::field(s, 4, 4) as u8,
                        synthesis_transforms,
                        geometry,
                        colour_transform,
                    ),
                },
            },
        }
    }
}

/// The part of the picture header behind the colour transform.
pub open spec fn spec_coding(
    s: Seq<bool>,
    pos: int,
    stream_profile_idc: u8,
    decoder_profile_id: u8,
    synthesis_transforms: Seq<OperatingPoint>,
    geometry: Geometry,
    colour_transform: ColourView,
) -> bitio::Parsed<PictureView> {
    if pos + 4 > s.len() {
        Err(Error::UnexpectedEof)
    } else {
        let (height, width) = (geometry.height as int, geometry.width as int);
        match spec_threads(s, pos + 4) {
            Err(e) => Err(e),
            Ok((num_threads_z, p1)) => if p1 + 12 > s.len() {
                Err(Error::UnexpectedEof)
            } else {
                match spec_regions(s, p1 + 12, height, width) {
                    Err(e) => Err(e),
                    Ok((regions, p2)) => match spec_beta1(s, p2, displacement(s, p1)) {
                        Err(e) => Err(e),
                        Ok((beta1, p3)) => match spec_component(s, p3, height, width, 0) {
                            Err(e) => Err(e),
                            Ok((luma, p4)) => match spec_component(s, p4, height, width, 1) {
                                Err(e) => Err(e),
                                Ok((chroma, p5)) => match flagged(
                                    s,
                                    p5,
                                    spec_quality_map(s, p5 + 1),
                                ) {
                                    Err(e) => Err(e),
                                    Ok((quality_map, p6)) => Ok(
                                        (
                                            PictureView {
                                                stream_profile_idc,
                                                decoder_profile_id,
                                                synthesis_transforms,
                                                geometry,
                                                colour_transform,
                                                model_id: bitio::field(s, pos, 4) as u8,
                                                num_threads_z,
                                                beta: (displacement(s, p1), beta1),
                                                regions,
                                                luma,
                                                chroma,
                                                quality_map,
                                            },
                                            p6,
                                        ),
                                    ),
                                },
                            },
                        },
                    },
                }
            },
        }
    }
}

fn read_geometry(r: &mut BitReader<'_>) -> (v: Result<Geometry>)
    requires
        old(r).wf(),
    ensures
        final(r).follows(old(r)),
        bitio::agrees(v, final(r).pos(), spec_geometry(old(r).bits(), old(r).pos())),
        v matches Ok(g) ==> 64 <= g.width <= 65599 && 64 <= g.height <= 65599
            && g.diff_display_width < 64 && g.diff_display_height < 64 && 1 <= g.s_ver <= 2 && 1
            <= g.s_hor <= 2 && 1 <= g.c_ver <= 2 && 1 <= g.c_hor <= 2,
{
    proof {
        reveal(spec_geometry);
        power2::lemma2_to64();
        bitio::lemma_widths();
    }
    let level_idc: u8 = r.read_bits(8)? as u8;
    let width: u32 = r.read_bounded(65535)? + 64;
    let height: u32 = r.read_bounded(65535)? + 64;
    let diff_display_width: u8 = r.read_bits(6)? as u8;
    let diff_display_height: u8 = r.read_bits(6)? as u8;
    let bit_depth_idc: u32 = r.read_bounded(4)?;
    if bit_depth_idc > 1 {
        return Err(Error::InvalidData("bit_depth_idc: only 8 and 10 bit are defined"));
    }
    let bit_depth: u8 = if bit_depth_idc == 0 { 8 } else { 10 };
    let s_ver: u8 = if r.read_bit()? { 2 } else { 1 };
    let s_hor: u8 = if r.read_bit()? { 2 } else { 1 };
    let c_ver: u8 = if s_ver == 1 {
        if r.read_bit()? { 2 } else { 1 }
    } else {
        2
    };
    let c_hor: u8 = if s_hor == 1 {
        if r.read_bit()? { 2 } else { 1 }
    } else {
        2
    };
    Ok(
        Geometry {
            level_idc,
            width,
            height,
            diff_display_width,
            diff_display_height,
            bit_depth,
            s_ver,
            s_hor,
            c_ver,
            c_hor,
        },
    )
}

fn read_colour(r: &mut BitReader<'_>) -> (v: Result<ColourTransform>)
    requires
        old(r).wf(),
    ensures
        final(r).follows(old(r)),
        match spec_colour(old(r).bits(), old(r).pos()) {
            Ok((c, p)) => v matches Ok(x) && x@ == c && final(r).pos() == p,
            Err(e) => v == Err::<ColourTransform, Error>(e),
        },
{
    let ghost s = r.bits();
    let ghost pos = r.pos();
    proof {
        reveal(spec_colour);
        bitio::lemma_widths();
    }
    match r.read_bounded(2)? {
        0 => Ok(ColourTransform::Plain),
        1 => Ok(ColourTransform::Bt709),
        2 => {
            let mut m: Vec<u8> = Vec::new();
            let mut i: usize = 0;
            while i < 12
                invariant
                    i <= 12,
                    r.follows(old(r)),
                    s == old(r).bits(),
                    s == r.bits(),
                    pos == old(r).pos(),
                    pos + 2 <= s.len(),
                    bitio::field(s, pos, 2) == 2,
                    r.pos() == pos + 2 + 8 * i,
                    m@.len() == i,
                    forall|j: int|
                        0 <= j < i ==> #[trigger] m@[j] == bitio::field(s, pos + 2 + 8 * j, 8) as u8,
                decreases 12 - i,
            {
                proof {
                    reveal(spec_colour);
                }
                m.push(r.read_bits(8)? as u8);
                i = i + 1;
            }
            let matrix: [u8; 9] = [m[0], m[1], m[2], m[3], m[4], m[5], m[6], m[7], m[8]];
            let offset: [u8; 3] = [m[9], m[10], m[11]];
            proof {
                assert(matrix@ + offset@ =~= Seq::new(
                    12,
                    |i: int| bitio::field(s, pos + 2 + 8 * i, 8) as u8,
                ));
            }
            Ok(ColourTransform::Custom { matrix, offset })
        },
        _ => Err(Error::InvalidData("colour_transform_idx out of range")),
    }
}

/// A multi-threading flag followed by two bits of exponent when set.
fn read_thread_count(r: &mut BitReader<'_>) -> (v: Result<u8>)
    requires
        old(r).wf(),
    ensures
        final(r).follows(old(r)),
        bitio::agrees(v, final(r).pos(), spec_threads(old(r).bits(), old(r).pos())),
{
    proof {
        reveal(spec_threads);
        power2::lemma2_to64();
    }
    if r.read_bit()? {
        match r.read_bits(2)? {
            0 => Ok(2),
            1 => Ok(4),
            2 => Ok(8),
            _ => Ok(16),
        }
    } else {
        Ok(1)
    }
}

fn read_regions(r: &mut BitReader<'_>, height: u32, width: u32) -> (v: Result<Option<Regions>>)
    requires
        old(r).wf(),
    ensures
        final(r).follows(old(r)),
        bitio::agrees(
            v,
            final(r).pos(),
            spec_regions(old(r).bits(), old(r).pos(), height as int, width as int),
        ),
{
    proof {
        reveal(spec_regions);
        power2::lemma2_to64();
    }
    if !r.read_bit()? {
        return Ok(None);
    }
    let num_ver: u32 = r.read_bits(7)? + 1;
    let num_hor: u32 = r.read_bits(7)? + 1;
    if num_ver > ceil_div(height, 256) || num_hor > ceil_div(width, 512) {
        return Err(Error::InvalidData("more regions than the picture size allows"));
    }
    let independent: bool = r.read_bit()?;
    let mut hyper_decoder_overlap: u8 = 0;
    let mut mcm_overlap: u8 = 0;
    if !independent {
        hyper_decoder_overlap = r.read_bits(2)? as u8;
        mcm_overlap = r.read_bits(4)? as u8;
    }
    Ok(
        Some(
            Regions {
                num_ver: num_ver as u8,
                num_hor: num_hor as u8,
                independent,
                hyper_decoder_overlap,
                mcm_overlap,
            },
        ),
    )
}

fn read_beta1(r: &mut BitReader<'_>, beta0: i32) -> (v: Result<i32>)
    requires
        old(r).wf(),
    ensures
        final(r).follows(old(r)),
        bitio::agrees(v, final(r).pos(), spec_beta1(old(r).bits(), old(r).pos(), beta0)),
{
    proof {
        reveal(spec_beta1);
        power2::lemma2_to64();
    }
    if r.read_bit()? {
        Ok(r.read_bits(12)? as i32 - 2048)
    } else {
        Ok(beta0)
    }
}

fn read_cube_flags(r: &mut BitReader<'_>, count: usize) -> (v: Result<Vec<bool>>)
    requires
        old(r).wf(),
    ensures
        final(r).follows(old(r)),
        match spec_cube_flags(old(r).bits(), old(r).pos(), count as nat, Seq::empty()) {
            Ok((f, p)) => v matches Ok(x) && x@ == f && final(r).pos() == p,
            Err(e) => v == Err::<Vec<bool>, Error>(e),
        },
{
    let ghost s = r.bits();
    let ghost pos = r.pos();
    let mut flags: Vec<bool> = Vec::new();
    while flags.len() < count
        invariant
            flags@.len() <= count,
            r.follows(old(r)),
            s == old(r).bits(),
            s == r.bits(),
            pos == old(r).pos(),
            spec_cube_flags(s, pos, count as nat, Seq::empty()) == spec_cube_flags(
                s,
                r.pos(),
                count as nat,
                flags@,
            ),
        decreases count - flags@.len(),
    {
        let left: usize = count - flags.len();
        let n: usize = if left < 8 { left } else { 8 };
        let ghost have = flags@;
        let ghost at = r.pos();
        let coded: bool = r.read_bit()?;
        let mut i: usize = 0;
        while i < n
            invariant
                i <= n,
                n <= 8,
                have.len() + n <= count,
                n == (if count - have.len() < 8 { count - have.len() } else { 8 }),
                have.len() < count,
                r.follows(old(r)),
                s == old(r).bits(),
                s == r.bits(),
                pos == old(r).pos(),
                0 <= at < s.len(),
                coded == s[at],
                r.pos() == if coded { at + 1 + i } else { at + 1 },
                flags@ == have + (if coded { s.subrange(at + 1, at + 1 + i) } else {
                    all_set(i as nat)
                }),
                spec_cube_flags(s, pos, count as nat, Seq::empty()) == spec_cube_flags(
                    s,
                    at,
                    count as nat,
                    have,
                ),
            decreases n - i,
        {
            let f: bool = if coded { r.read_bit()? } else { true };
            proof {
                if coded {
                    assert(s.subrange(at + 1, at + 1 + i).push(f) =~= s.subrange(
                        at + 1,
                        at + 1 + i + 1,
                    ));
                } else {
                    assert(all_set(i as nat).push(f) =~= all_set((i + 1) as nat));
                }
                let more = if coded {
                    s.subrange(at + 1, at + 1 + i)
                } else {
                    all_set(i as nat)
                };
                assert((have + more).push(f) =~= have + more.push(f));
            }
            flags.push(f);
            i = i + 1;
        }
    }
    Ok(flags)
}

/// `n` flags.
fn read_flags(r: &mut BitReader<'_>, n: usize) -> (v: Result<Vec<bool>>)
    requires
        old(r).wf(),
    ensures
        final(r).follows(old(r)),
        match spec_flags(old(r).bits(), old(r).pos(), n as nat) {
            Ok((f, p)) => v matches Ok(x) && x@ == f && final(r).pos() == p,
            Err(e) => v == Err::<Vec<bool>, Error>(e),
        },
{
    let ghost s = r.bits();
    let ghost pos = r.pos();
    let mut flags: Vec<bool> = Vec::new();
    while flags.len() < n
        invariant
            flags@.len() <= n,
            r.follows(old(r)),
            s == old(r).bits(),
            s == r.bits(),
            pos == old(r).pos(),
            0 <= pos,
            r.pos() == pos + flags@.len(),
            flags@ == s.subrange(pos, pos + flags@.len()),
        decreases n - flags@.len(),
    {
        let f: bool = r.read_bit()?;
        proof {
            assert(s.subrange(pos, pos + flags@.len()).push(f) =~= s.subrange(
                pos,
                pos + flags@.len() + 1,
            ));
        }
        flags.push(f);
    }
    Ok(flags)
}

/// A tile size and an overlap in units of 16.
pub(crate) fn read_tiling(r: &mut BitReader<'_>, zero: &'static str) -> (v: Result<SynthesisTiling>)
    requires
        old(r).wf(),
    ensures
        final(r).follows(old(r)),
        bitio::agrees(v, final(r).pos(), spec_tiling(old(r).bits(), old(r).pos(), zero)),
        v matches Ok(t) ==> t.tile_size <= 255 * 16 && t.overlap <= 31 * 16 && t.tile_size > 0,
{
    proof {
        reveal(spec_tiling);
        power2::lemma2_to64();
    }
    let tile_size: u32 = r.read_bits(8)? * 16;
    let overlap: u32 = r.read_bits(5)? * 16;
    if tile_size == 0 {
        return Err(Error::InvalidData(zero));
    }
    Ok(SynthesisTiling { tile_size, overlap })
}

impl ComponentHeader {
    /// A component of which nothing is coded.
    pub(crate) fn empty() -> (c: Self)
        ensures
            c@ == (ComponentView {
                num_threads_r: 1,
                num_chs: 0,
                cube_flags: None,
                rvs_enabled: false,
                grfs_channel_flags: None,
                synthesis_tiling: None,
            }),
    {
        ComponentHeader {
            num_threads_r: 1,
            num_chs: 0,
            cube_flags: None,
            rvs_enabled: false,
            grfs_channel_flags: None,
            synthesis_tiling: None,
        }
    }

    /// Read the header of component `ccs` of a picture of this size.
    pub fn parse(r: &mut BitReader<'_>, height: u32, width: u32, ccs: usize) -> (v: Result<Self>)
        requires
            old(r).wf(),
            ccs < 2,
            spec_cube_flag_count(height as int, width as int, ccs as int) <= usize::MAX,
        ensures
            final(r).follows(old(r)),
            match spec_component(
                old(r).bits(),
                old(r).pos(),
                height as int,
                width as int,
                ccs as int,
            ) {
                Ok((c, p)) => v matches Ok(x) && x@ == c && final(r).pos() == p,
                Err(e) => v == Err::<ComponentHeader, Error>(e),
            },
    {
        proof {
            reveal(spec_component);
            power2::lemma2_to64();
        }
        let num_threads_r: u8 = read_thread_count(r)?;
        let coded: usize = r.read_bits(8)? as usize;
        let limit: usize = LATENT_CHANNELS[ccs];
        let num_chs: u16 = if coded < limit { coded as u16 } else { limit as u16 };
        let cube_flags: Option<Vec<bool>> = if r.read_bit()? {
            let count: usize = cube_flag_count(height, width, ccs);
            Some(read_cube_flags(r, count)?)
        } else {
            None
        };
        let rvs_enabled: bool = r.read_bit()?;
        let grfs_channel_flags: Option<Vec<bool>> = if r.read_bit()? {
            Some(read_flags(r, num_chs as usize)?)
        } else {
            None
        };
        let synthesis_tiling: Option<SynthesisTiling> = if r.read_bit()? {
            Some(read_tiling(r, "synthesis_tile_size is zero")?)
        } else {
            None
        };
        Ok(
            ComponentHeader {
                num_threads_r,
                num_chs,
                cube_flags,
                rvs_enabled,
                grfs_channel_flags,
                synthesis_tiling,
            },
        )
    }
}

/// A picture whose sides a header can code has few enough cube flags.
pub proof fn lemma_cube_flag_count(height: int, width: int, ccs: int)
    requires
        0 <= height <= 65599,
        0 <= width <= 65599,
        0 <= ccs < 2,
    ensures
        0 <= spec_cube_flag_count(height, width, ccs) <= 4 * 257 * 257,
{
    let (h, w) = spec_latent_size(height, width, ccs);
    let (a, b) = (ceil_of(ceil_of(h, 2), 8), ceil_of(ceil_of(w, 2), 8));
    assert(0 <= a <= 257);
    assert(0 <= b <= 257);
    assert(0 <= a * b <= 257 * 257) by (nonlinear_arith)
        requires
            0 <= a <= 257,
            0 <= b <= 257,
    ;
}

fn read_quality_map(r: &mut BitReader<'_>) -> (v: Result<QualityMapHeader>)
    requires
        old(r).wf(),
    ensures
        final(r).follows(old(r)),
        bitio::agrees(v, final(r).pos(), spec_quality_map(old(r).bits(), old(r).pos())),
{
    proof {
        reveal(spec_quality_map);
        bitio::lemma_widths();
    }
    let num_threads: u8 = read_thread_count(r)?;
    let entropy_index: u8 = r.read_bounded(7)? as u8;
    Ok(QualityMapHeader { num_threads, entropy_index })
}

fn read_transforms(r: &mut BitReader<'_>, count: u32) -> (v: Result<Vec<OperatingPoint>>)
    requires
        old(r).wf(),
    ensures
        final(r).follows(old(r)),
        match spec_transforms(old(r).bits(), old(r).pos(), count as nat, Seq::empty()) {
            Ok((t, p)) => v matches Ok(x) && x@ == t && final(r).pos() == p,
            Err(e) => v == Err::<Vec<OperatingPoint>, Error>(e),
        },
{
    let ghost s = r.bits();
    let ghost pos = r.pos();
    let mut transforms: Vec<OperatingPoint> = Vec::new();
    let mut i: u32 = 0;
    while i < count
        invariant
            i <= count,
            r.follows(old(r)),
            s == old(r).bits(),
            s == r.bits(),
            pos == old(r).pos(),
            spec_transforms(s, pos, count as nat, Seq::empty()) == spec_transforms(
                s,
                r.pos(),
                (count - i) as nat,
                transforms@,
            ),
        decreases count - i,
    {
        let id: u32 = r.read_bits(4)?;
        let op = OperatingPoint::from_id(id)?;
        transforms.push(op);
        i = i + 1;
    }
    Ok(transforms)
}

impl PictureHeader {
    /// Parse a `PIH` substream payload.
    pub fn parse(payload: &[u8]) -> (v: Result<Self>)
        requires
            bitio::addressable(payload@.len()),
        ensures
            match spec_picture(bits::of_bytes(payload@)) {
                Ok((h, p)) => v matches Ok(x) && x@ == h,
                Err(e) => v == Err::<PictureHeader, Error>(e),
            },
            v matches Ok(x) ==> x.coded_size() && x.displayable(),
    {
        proof {
            power2::lemma2_to64();
            bitio::lemma_widths();
        }
        let mut r = BitReader::new(payload);
        let stream_profile_idc: u8 = r.read_bits(4)? as u8;
        let decoder_profile_id: u8 = r.read_bits(4)? as u8;
        let count: u32 = r.read_bits(4)? + 1;
        let synthesis_transforms = read_transforms(&mut r, count)?;
        let g = read_geometry(&mut r)?;
        let colour_transform = read_colour(&mut r)?;
        let model_id: u8 = r.read_bounded(15)? as u8;
        let num_threads_z: u8 = read_thread_count(&mut r)?;
        let beta0: i32 = r.read_bits(12)? as i32 - 2048;
        let regions = read_regions(&mut r, g.height, g.width)?;
        let beta1: i32 = read_beta1(&mut r, beta0)?;
        proof {
            lemma_cube_flag_count(g.height as int, g.width as int, 0);
            lemma_cube_flag_count(g.height as int, g.width as int, 1);
        }
        let luma = ComponentHeader::parse(&mut r, g.height, g.width, 0)?;
        let chroma = ComponentHeader::parse(&mut r, g.height, g.width, 1)?;
        let quality_map = if r.read_bit()? {
            Some(read_quality_map(&mut r)?)
        } else {
            None
        };
        let hdr = PictureHeader {
            stream_profile_idc,
            decoder_profile_id,
            synthesis_transforms,
            level_idc: g.level_idc,
            width: g.width,
            height: g.height,
            diff_display_width: g.diff_display_width,
            diff_display_height: g.diff_display_height,
            bit_depth: g.bit_depth,
            s_ver: g.s_ver,
            s_hor: g.s_hor,
            c_ver: g.c_ver,
            c_hor: g.c_hor,
            colour_transform,
            model_id,
            num_threads_z,
            beta_displacement_log: [beta0, beta1],
            regions,
            components: [luma, chroma],
            quality_map,
        };
        Ok(hdr)
    }

    /// Something of the picture is displayed, and its chroma planes have a format.
    pub open spec fn displayable(&self) -> bool {
        &&& self.diff_display_width < 64
        &&& self.diff_display_height < 64
        &&& 1 <= self.s_ver <= 2
        &&& 1 <= self.s_hor <= 2
        &&& 1 <= self.c_ver <= 2
        &&& 1 <= self.c_hor <= 2
    }

    /// The picture's sides can be coded.
    pub open spec fn coded_size(&self) -> bool {
        &&& 64 <= self.width <= 65599
        &&& 64 <= self.height <= 65599
    }
}

/// The bits of transform ids.
pub open spec fn transforms_code(ts: Seq<OperatingPoint>) -> Seq<bool>
    decreases ts.len(),
{
    if ts.len() == 0 {
        Seq::empty()
    } else {
        transforms_code(ts.drop_last()) + bits::low_bits(ts.last().spec_id(), 4)
    }
}

/// The index of a bit depth, if it has one.
pub open spec fn depth_index(bit_depth: u8) -> Option<u32> {
    if bit_depth == 8 {
        Some(0)
    } else if bit_depth == 10 {
        Some(1)
    } else if bit_depth == 12 {
        Some(2)
    } else if bit_depth == 14 {
        Some(3)
    } else if bit_depth == 16 {
        Some(4)
    } else {
        None
    }
}

/// The bits of level and size.
#[verifier::opaque]
pub open spec fn size_code(g: Geometry) -> Seq<bool> {
    bits::low_bits(g.level_idc as nat, 8) + bits::low_bits((g.width - 64) as nat, 16)
        + bits::low_bits((g.height - 64) as nat, 16) + bits::low_bits(
        g.diff_display_width as nat,
        6,
    ) + bits::low_bits(g.diff_display_height as nat, 6) + bits::low_bits(
        depth_index(g.bit_depth)->0 as nat,
        3,
    )
}

/// The bits of the sampling factors.
#[verifier::opaque]
pub open spec fn sampling_code(g: Geometry) -> Seq<bool> {
    bits::low_bits((g.s_ver - 1) as nat, 1) + bits::low_bits((g.s_hor - 1) as nat, 1) + (
    if g.s_ver == 1 {
        bits::low_bits((g.c_ver - 1) as nat, 1)
    } else {
        Seq::empty()
    }) + (if g.s_hor == 1 {
        bits::low_bits((g.c_hor - 1) as nat, 1)
    } else {
        Seq::empty()
    })
}

/// The bits of a colour transform.
#[verifier::opaque]
pub open spec fn colour_code(c: ColourView) -> Seq<bool> {
    match c {
        ColourView::Plain => bits::low_bits(0, 2),
        ColourView::Bt709 => bits::low_bits(1, 2),
        ColourView::Custom(m) => bits::low_bits(2, 2) + bits::of_bytes(m),
    }
}

/// Whether a thread count can be coded.
pub open spec fn thread_count_ok(n: u8) -> bool {
    n == 1 || n == 2 || n == 4 || n == 8 || n == 16
}

/// The bits of a thread count.
#[verifier::opaque]
pub open spec fn threads_code(n: u8) -> Seq<bool> {
    if n == 1 {
        seq![false]
    } else {
        seq![true] + bits::low_bits(
            if n == 2 {
                0
            } else if n == 4 {
                1
            } else if n == 8 {
                2
            } else {
                3
            },
            2,
        )
    }
}

/// The bits of a displacement.
pub open spec fn displacement_code(beta: i32) -> Seq<bool> {
    bits::low_bits((beta + 2048) as nat, 12)
}

/// Whether a displacement can be coded.
pub open spec fn displacement_ok(beta: i32) -> bool {
    -2048 <= beta < 2048
}

/// The bits of the regions.
#[verifier::opaque]
pub open spec fn regions_code(regions: Option<Regions>) -> Seq<bool> {
    match regions {
        None => seq![false],
        Some(g) => seq![true] + bits::low_bits((g.num_ver - 1) as nat, 7) + bits::low_bits(
            (g.num_hor - 1) as nat,
            7,
        ) + seq![g.independent] + (if g.independent {
            Seq::empty()
        } else {
            bits::low_bits(g.hyper_decoder_overlap as nat, 2) + bits::low_bits(
                g.mcm_overlap as nat,
                4,
            )
        }),
    }
}

/// The bits of the chroma displacement.
#[verifier::opaque]
pub open spec fn beta1_code(beta0: i32, beta1: i32) -> Seq<bool> {
    if beta0 == beta1 {
        seq![false]
    } else {
        seq![true] + displacement_code(beta1)
    }
}

/// The flags of the group that starts at flag `i`.
pub open spec fn group_at(flags: Seq<bool>, i: int) -> Seq<bool> {
    flags.subrange(
        i,
        if i + 8 < flags.len() {
            i + 8
        } else {
            flags.len() as int
        },
    )
}

/// The bits of one group of cube flags.
pub open spec fn group_code(group: Seq<bool>) -> Seq<bool> {
    if group == all_set(group.len()) {
        seq![false]
    } else {
        seq![true] + group
    }
}

/// The bits of the cube flags from flag `i` on, which starts a group.
pub open spec fn cube_code(flags: Seq<bool>, i: int) -> Seq<bool>
    decreases flags.len() - i + 8,
{
    if i < 0 || i >= flags.len() {
        Seq::empty()
    } else {
        group_code(group_at(flags, i)) + cube_code(flags, i + 8)
    }
}

/// The bits of a tiling.
#[verifier::opaque]
pub open spec fn tiling_code(t: SynthesisTiling) -> Seq<bool> {
    bits::low_bits((t.tile_size / 16) as nat, 8) + bits::low_bits((t.overlap / 16) as nat, 5)
}

/// A flag, and if it is set what stands behind it.
pub open spec fn flagged_code(code: Option<Seq<bool>>) -> Seq<bool> {
    match code {
        Some(c) => seq![true] + c,
        None => seq![false],
    }
}

/// The bits of the cube flags and what says whether they are there.
pub open spec fn cube_part(c: ComponentView) -> Seq<bool> {
    flagged_code(
        match c.cube_flags {
            Some(f) => Some(cube_code(f, 0)),
            None => None,
        },
    )
}

/// The bits of the channel gain flags and what says whether they are there.
pub open spec fn grfs_part(c: ComponentView) -> Seq<bool> {
    flagged_code(c.grfs_channel_flags)
}

/// The bits of the tiling and what says whether it is there.
pub open spec fn tiling_part(t: Option<SynthesisTiling>) -> Seq<bool> {
    flagged_code(
        match t {
            Some(t) => Some(tiling_code(t)),
            None => None,
        },
    )
}

/// The bits of a component header.
#[verifier::opaque]
pub open spec fn component_code(c: ComponentView) -> Seq<bool> {
    threads_code(c.num_threads_r) + bits::low_bits(c.num_chs as nat, 8) + cube_part(c)
        + seq![c.rvs_enabled] + grfs_part(c) + tiling_part(c.synthesis_tiling)
}

/// The bits of the quality map and what says whether it is there.
#[verifier::opaque]
pub open spec fn quality_part(q: Option<QualityMapHeader>) -> Seq<bool> {
    match q {
        None => seq![false],
        Some(q) => seq![true] + threads_code(q.num_threads) + bits::low_bits(
            q.entropy_index as nat,
            3,
        ),
    }
}

/// The bits of the part of a picture header up to the colour transform.
#[verifier::opaque]
pub open spec fn picture_head_code(v: PictureView) -> Seq<bool> {
    bits::low_bits(v.stream_profile_idc as nat, 4) + bits::low_bits(
        v.decoder_profile_id as nat,
        4,
    ) + bits::low_bits((v.synthesis_transforms.len() - 1) as nat, 4) + transforms_code(
        v.synthesis_transforms,
    ) + size_code(v.geometry) + sampling_code(v.geometry) + colour_code(v.colour_transform)
}

/// The bits of the part of a picture header behind the colour transform.
#[verifier::opaque]
pub open spec fn picture_tail_code(v: PictureView) -> Seq<bool> {
    bits::low_bits(v.model_id as nat, 4) + threads_code(v.num_threads_z) + displacement_code(
        v.beta.0,
    ) + regions_code(v.regions) + beta1_code(v.beta.0, v.beta.1) + component_code(v.luma)
        + component_code(v.chroma) + quality_part(v.quality_map)
}

/// The bits of a picture header.
pub open spec fn picture_code(v: PictureView) -> Seq<bool> {
    picture_head_code(v) + picture_tail_code(v)
}

/// Why a tiling cannot be written, if it cannot.
pub open spec fn tiling_error(tiling: Option<SynthesisTiling>) -> Option<Error> {
    match tiling {
        None => None,
        Some(t) => if t.tile_size % 16 != 0 || t.overlap % 16 != 0 || t.tile_size == 0 {
            Some(Error::InvalidArgument("tile size/overlap must be multiples of 16"))
        } else if t.tile_size / 16 > 255 || t.overlap / 16 > 31 {
            Some(Error::InvalidArgument("tile size/overlap out of range"))
        } else {
            None
        },
    }
}

/// Why a component header cannot be written, if it cannot.
pub open spec fn component_error(c: ComponentView, height: int, width: int, ccs: int) -> Option<
    Error,
> {
    if !thread_count_ok(c.num_threads_r) {
        Some(Error::InvalidArgument("thread count must be 1, 2, 4, 8 or 16"))
    } else if c.num_chs > latent_channels(ccs) {
        Some(Error::InvalidArgument("num_chs exceeds the latent channel count"))
    } else if c.cube_flags matches Some(f) && f.len() != spec_cube_flag_count(height, width, ccs) {
        Some(Error::InvalidArgument("cube flag count does not match picture"))
    } else if c.grfs_channel_flags matches Some(f) && f.len() != c.num_chs {
        Some(Error::InvalidArgument("one grfs flag per coded channel required"))
    } else {
        tiling_error(c.synthesis_tiling)
    }
}

/// Why a picture header cannot be written, if it cannot: the first of these that holds.
pub open spec fn picture_error(v: PictureView) -> Option<Error> {
    let g = v.geometry;
    let n = v.synthesis_transforms.len();
    let luma = component_error(v.luma, g.height as int, g.width as int, 0);
    let chroma = component_error(v.chroma, g.height as int, g.width as int, 1);
    if n == 0 || n > 16 {
        Some(Error::InvalidArgument("1..=16 synthesis transforms required"))
    } else if !(64 <= g.width <= 65599 && 64 <= g.height <= 65599) {
        Some(Error::InvalidArgument("picture dimensions out of range"))
    } else if g.diff_display_width > 63 || g.diff_display_height > 63 {
        Some(Error::InvalidArgument("diff_display_* must be below 64"))
    } else if depth_index(g.bit_depth) is None {
        Some(Error::InvalidArgument("bit depth must be one of 8, 10, 12, 14, 16"))
    } else if !thread_count_ok(v.num_threads_z) {
        Some(Error::InvalidArgument("thread count must be 1, 2, 4, 8 or 16"))
    } else if !displacement_ok(v.beta.0) || !displacement_ok(v.beta.1) {
        Some(Error::InvalidArgument("beta_displacement_log out of range"))
    } else if luma is Some {
        luma
    } else if chroma is Some {
        chroma
    } else if v.quality_map matches Some(q) && !thread_count_ok(q.num_threads) {
        Some(Error::InvalidArgument("thread count must be 1, 2, 4, 8 or 16"))
    } else {
        None
    }
}

/// Subsampling factors and region counts of a picture header start at one.
pub open spec fn counts_from_one(v: PictureView) -> bool {
    let g = v.geometry;
    &&& g.s_ver >= 1
    &&& g.s_hor >= 1
    &&& g.s_ver == 1 ==> g.c_ver >= 1
    &&& g.s_hor == 1 ==> g.c_hor >= 1
    &&& v.regions matches Some(r) ==> r.num_ver >= 1 && r.num_hor >= 1
}

fn write_thread_count(w: &mut BitWriter, n: u8) -> (r: Result<()>)
    requires
        old(w).wf(),
    ensures
        final(w).wf(),
        thread_count_ok(n) ==> r is Ok && final(w).bits() == old(w).bits() + threads_code(n),
        !thread_count_ok(n) ==> r == Err::<(), Error>(
            Error::InvalidArgument("thread count must be 1, 2, 4, 8 or 16"),
        ),
{
    proof {
        reveal(threads_code);
    }
    if n == 1 {
        w.write_bit(false);
        proof {
            assert(w.bits() =~= old(w).bits() + threads_code(n));
        }
        return Ok(());
    }
    let e: u32 = match n {
        2 => 0,
        4 => 1,
        8 => 2,
        16 => 3,
        _ => {
            return Err(Error::InvalidArgument("thread count must be 1, 2, 4, 8 or 16"));
        },
    };
    w.write_bit(true);
    w.write_bits(e, 2);
    proof {
        assert(w.bits() =~= old(w).bits() + threads_code(n));
    }
    Ok(())
}

fn write_flags(w: &mut BitWriter, flags: &Vec<bool>)
    requires
        old(w).wf(),
    ensures
        final(w).wf(),
        final(w).bits() == old(w).bits() + flags@,
{
    let mut i: usize = 0;
    proof {
        assert(w.bits() =~= old(w).bits() + flags@.take(0));
    }
    while i < flags.len()
        invariant
            i <= flags@.len(),
            w.wf(),
            w.bits() == old(w).bits() + flags@.take(i as int),
        decreases flags@.len() - i,
    {
        w.write_bit(flags[i]);
        proof {
            assert((old(w).bits() + flags@.take(i as int)).push(flags@[i as int]) =~= old(w).bits()
                + flags@.take(i + 1));
        }
        i = i + 1;
    }
    proof {
        assert(flags@.take(i as int) =~= flags@);
    }
}

/// Write the group of cube flags that starts at flag `from`.
fn write_group(w: &mut BitWriter, flags: &Vec<bool>, from: usize)
    requires
        old(w).wf(),
        from < flags@.len(),
    ensures
        final(w).wf(),
        final(w).bits() == old(w).bits() + group_code(group_at(flags@, from as int)),
{
    let left: usize = flags.len() - from;
    let n: usize = if left < 8 { left } else { 8 };
    let ghost group = group_at(flags@, from as int);
    let mut set: bool = true;
    let mut i: usize = 0;
    while i < n
        invariant
            i <= n,
            n == group.len(),
            from + n <= flags@.len() <= usize::MAX,
            group == flags@.subrange(from as int, from + n),
            set == (forall|j: int| 0 <= j < i ==> #[trigger] group[j]),
        decreases n - i,
    {
        let f: bool = flags[from + i];
        proof {
            assert(f == group[i as int]);
        }
        set = set && f;
        i = i + 1;
    }
    proof {
        if set {
            assert(group =~= all_set(group.len()));
        } else {
            let j = choose|j: int| 0 <= j < n && !(#[trigger] group[j]);
            assert(all_set(group.len())[j] != group[j]);
        }
    }
    w.write_bit(!set);
    if !set {
        let mut k: usize = 0;
        let ghost head = old(w).bits().push(true);
        proof {
            assert(w.bits() =~= head + group.take(0));
        }
        while k < n
            invariant
                k <= n,
                n == group.len(),
                from + n <= flags@.len() <= usize::MAX,
                group == flags@.subrange(from as int, from + n),
                w.wf(),
                w.bits() == head + group.take(k as int),
            decreases n - k,
        {
            w.write_bit(flags[from + k]);
            proof {
                assert((head + group.take(k as int)).push(group[k as int]) =~= head + group.take(
                    k + 1,
                ));
            }
            k = k + 1;
        }
        proof {
            assert(group.take(k as int) =~= group);
            assert(head + group =~= old(w).bits() + (seq![true] + group));
        }
    } else {
        proof {
            assert(w.bits() =~= old(w).bits() + seq![false]);
        }
    }
}

fn write_cube_flags(w: &mut BitWriter, flags: &Vec<bool>)
    requires
        old(w).wf(),
    ensures
        final(w).wf(),
        final(w).bits() == old(w).bits() + cube_code(flags@, 0),
{
    let mut i: usize = 0;
    while i < flags.len()
        invariant
            w.wf(),
            w.bits() + cube_code(flags@, i as int) == old(w).bits() + cube_code(flags@, 0),
        decreases flags@.len() - i,
    {
        let ghost before = w.bits();
        write_group(w, flags, i);
        proof {
            let g = group_code(group_at(flags@, i as int));
            assert((before + g) + cube_code(flags@, i + 8) =~= before + (g + cube_code(
                flags@,
                i + 8,
            )));
        }
        if flags.len() - i <= 8 {
            proof {
                assert(cube_code(flags@, i + 8) =~= Seq::empty());
                assert(w.bits() =~= w.bits() + cube_code(flags@, i + 8));
            }
            return;
        }
        i = i + 8;
    }
    proof {
        assert(w.bits() =~= w.bits() + cube_code(flags@, i as int));
    }
}

pub(crate) fn write_tiling(w: &mut BitWriter, t: &SynthesisTiling)
    requires
        old(w).wf(),
    ensures
        final(w).wf(),
        final(w).bits() == old(w).bits() + tiling_code(*t),
{
    w.write_bits(t.tile_size / 16, 8);
    w.write_bits(t.overlap / 16, 5);
    proof {
        reveal(tiling_code);
        assert(w.bits() =~= old(w).bits() + tiling_code(*t));
    }
}

impl ComponentHeader {
    /// Append the header of component `ccs` of a picture of this size.
    pub fn write(&self, w: &mut BitWriter, height: u32, width: u32, ccs: usize) -> (r: Result<()>)
        requires
            old(w).wf(),
            ccs < 2,
            spec_cube_flag_count(height as int, width as int, ccs as int) <= usize::MAX,
        ensures
            final(w).wf(),
            match component_error(self@, height as int, width as int, ccs as int) {
                Some(e) => r == Err::<(), Error>(e),
                None => r is Ok && final(w).bits() == old(w).bits() + component_code(self@),
            },
    {
        let ghost base = w.bits();
        write_thread_count(w, self.num_threads_r)?;
        if self.num_chs as usize > LATENT_CHANNELS[ccs] {
            return Err(Error::InvalidArgument("num_chs exceeds the latent channel count"));
        }
        w.write_bits(self.num_chs as u32, 8);
        self.write_cube_part(w, height, width, ccs)?;
        let ghost b3 = w.bits();
        w.write_bit(self.rvs_enabled);
        proof {
            assert(w.bits() =~= b3 + seq![self.rvs_enabled]);
        }
        self.write_grfs_part(w)?;
        self.write_tiling_part(w)?;
        proof {
            reveal(component_code);
            lemma_concat6(
                base,
                threads_code(self.num_threads_r),
                bits::low_bits(self.num_chs as nat, 8),
                cube_part(self@),
                seq![self.rvs_enabled],
                grfs_part(self@),
                tiling_part(self@.synthesis_tiling),
            );
        }
        Ok(())
    }

    fn write_cube_part(&self, w: &mut BitWriter, height: u32, width: u32, ccs: usize) -> (r: Result<
        (),
    >)
        requires
            old(w).wf(),
            spec_cube_flag_count(height as int, width as int, ccs as int) <= usize::MAX,
        ensures
            final(w).wf(),
            self@.cube_flags matches Some(f) && f.len() != spec_cube_flag_count(
                height as int,
                width as int,
                ccs as int,
            ) ==> r == Err::<(), Error>(
                Error::InvalidArgument("cube flag count does not match picture"),
            ),
            !(self@.cube_flags matches Some(f) && f.len() != spec_cube_flag_count(
                height as int,
                width as int,
                ccs as int,
            )) ==> r is Ok && final(w).bits() == old(w).bits() + cube_part(self@),
    {
        match &self.cube_flags {
            None => {
                w.write_bit(false);
            },
            Some(flags) => {
                if flags.len() != cube_flag_count(height, width, ccs) {
                    return Err(Error::InvalidArgument("cube flag count does not match picture"));
                }
                w.write_bit(true);
                write_cube_flags(w, flags);
            },
        }
        proof {
            assert(w.bits() =~= old(w).bits() + cube_part(self@));
        }
        Ok(())
    }

    fn write_grfs_part(&self, w: &mut BitWriter) -> (r: Result<()>)
        requires
            old(w).wf(),
        ensures
            final(w).wf(),
            self@.grfs_channel_flags matches Some(f) && f.len() != self.num_chs ==> r == Err::<
                (),
                Error,
            >(Error::InvalidArgument("one grfs flag per coded channel required")),
            !(self@.grfs_channel_flags matches Some(f) && f.len() != self.num_chs) ==> r is Ok
                && final(w).bits() == old(w).bits() + grfs_part(self@),
    {
        match &self.grfs_channel_flags {
            None => {
                w.write_bit(false);
            },
            Some(flags) => {
                if flags.len() != self.num_chs as usize {
                    return Err(Error::InvalidArgument("one grfs flag per coded channel required"));
                }
                w.write_bit(true);
                write_flags(w, flags);
            },
        }
        proof {
            assert(w.bits() =~= old(w).bits() + grfs_part(self@));
        }
        Ok(())
    }

    fn write_tiling_part(&self, w: &mut BitWriter) -> (r: Result<()>)
        requires
            old(w).wf(),
        ensures
            final(w).wf(),
            match tiling_error(self.synthesis_tiling) {
                Some(e) => r == Err::<(), Error>(e),
                None => r is Ok && final(w).bits() == old(w).bits() + tiling_part(
                    self.synthesis_tiling,
                ),
            },
    {
        match &self.synthesis_tiling {
            None => {
                w.write_bit(false);
            },
            Some(t) => {
                if t.tile_size % 16 != 0 || t.overlap % 16 != 0 || t.tile_size == 0 {
                    return Err(
                        Error::InvalidArgument("tile size/overlap must be multiples of 16"),
                    );
                }
                if t.tile_size / 16 > 255 || t.overlap / 16 > 31 {
                    return Err(Error::InvalidArgument("tile size/overlap out of range"));
                }
                w.write_bit(true);
                write_tiling(w, t);
            },
        }
        proof {
            assert(w.bits() =~= old(w).bits() + tiling_part(self.synthesis_tiling));
        }
        Ok(())
    }
}

/// Appending parts one by one is appending them joined.
pub(crate) proof fn lemma_concat6(
    base: Seq<bool>,
    a: Seq<bool>,
    b: Seq<bool>,
    c: Seq<bool>,
    d: Seq<bool>,
    e: Seq<bool>,
    f: Seq<bool>,
)
    ensures
        base + a + b + c + d + e + f == base + (a + b + c + d + e + f),
{
    assert(base + a + b + c + d + e + f =~= base + (a + b + c + d + e + f));
}

fn write_transforms(w: &mut BitWriter, ts: &Vec<OperatingPoint>)
    requires
        old(w).wf(),
    ensures
        final(w).wf(),
        final(w).bits() == old(w).bits() + transforms_code(ts@),
{
    let mut i: usize = 0;
    proof {
        assert(transforms_code(ts@.take(0)) =~= Seq::empty());
        assert(w.bits() =~= old(w).bits() + transforms_code(ts@.take(0)));
    }
    while i < ts.len()
        invariant
            i <= ts@.len(),
            w.wf(),
            w.bits() == old(w).bits() + transforms_code(ts@.take(i as int)),
        decreases ts@.len() - i,
    {
        w.write_bits(ts[i].id(), 4);
        proof {
            assert(ts@.take(i + 1).drop_last() =~= ts@.take(i as int));
            assert(w.bits() =~= old(w).bits() + transforms_code(ts@.take(i + 1)));
        }
        i = i + 1;
    }
    proof {
        assert(ts@.take(i as int) =~= ts@);
    }
}

fn write_colour(w: &mut BitWriter, c: &ColourTransform)
    requires
        old(w).wf(),
    ensures
        final(w).wf(),
        final(w).bits() == old(w).bits() + colour_code(c@),
{
    proof {
        reveal(colour_code);
    }
    match c {
        ColourTransform::Plain => {
            w.write_bits(0, 2);
        },
        ColourTransform::Bt709 => {
            w.write_bits(1, 2);
        },
        ColourTransform::Custom { matrix, offset } => {
            w.write_bits(2, 2);
            let ghost all = matrix@ + offset@;
            let ghost head = w.bits();
            proof {
                assert(bits::of_bytes(all.take(0)) =~= Seq::empty());
                assert(w.bits() =~= head + bits::of_bytes(all.take(0)));
            }
            let mut i: usize = 0;
            while i < 12
                invariant
                    i <= 12,
                    all == matrix@ + offset@,
                    all.len() == 12,
                    w.wf(),
                    w.bits() == head + bits::of_bytes(all.take(i as int)),
                decreases 12 - i,
            {
                let b: u8 = if i < 9 { matrix[i] } else { offset[i - 9] };
                w.write_bits(b as u32, 8);
                proof {
                    assert(b == all[i as int]);
                    bits::lemma_of_bytes_push(all.take(i as int), b);
                    assert(all.take(i as int).push(b) =~= all.take(i + 1));
                    assert(w.bits() =~= head + bits::of_bytes(all.take(i + 1)));
                }
                i = i + 1;
            }
            proof {
                assert(all.take(12) =~= all);
                assert(w.bits() =~= old(w).bits() + (bits::low_bits(2, 2) + bits::of_bytes(all)));
            }
        },
    }
}

fn write_size(w: &mut BitWriter, hdr: &PictureHeader, bit_depth_idc: u32)
    requires
        old(w).wf(),
        hdr.coded_size(),
        depth_index(hdr.bit_depth) == Some(bit_depth_idc),
    ensures
        final(w).wf(),
        final(w).bits() == old(w).bits() + size_code(hdr.geometry()),
{
    w.write_bits(hdr.level_idc as u32, 8);
    w.write_bits(hdr.width - 64, 16);
    w.write_bits(hdr.height - 64, 16);
    w.write_bits(hdr.diff_display_width as u32, 6);
    w.write_bits(hdr.diff_display_height as u32, 6);
    w.write_bits(bit_depth_idc, 3);
    proof {
        reveal(size_code);
        assert(w.bits() =~= old(w).bits() + size_code(hdr.geometry()));
    }
}

fn write_sampling(w: &mut BitWriter, hdr: &PictureHeader)
    requires
        old(w).wf(),
        counts_from_one(hdr@),
    ensures
        final(w).wf(),
        final(w).bits() == old(w).bits() + sampling_code(hdr.geometry()),
{
    w.write_bits(hdr.s_ver as u32 - 1, 1);
    w.write_bits(hdr.s_hor as u32 - 1, 1);
    if hdr.s_ver == 1 {
        w.write_bits(hdr.c_ver as u32 - 1, 1);
    }
    if hdr.s_hor == 1 {
        w.write_bits(hdr.c_hor as u32 - 1, 1);
    }
    proof {
        reveal(sampling_code);
        assert(w.bits() =~= old(w).bits() + sampling_code(hdr.geometry()));
    }
}

fn write_regions(w: &mut BitWriter, regions: &Option<Regions>)
    requires
        old(w).wf(),
        regions matches Some(r) ==> r.num_ver >= 1 && r.num_hor >= 1,
    ensures
        final(w).wf(),
        final(w).bits() == old(w).bits() + regions_code(*regions),
{
    proof {
        reveal(regions_code);
    }
    match regions {
        None => {
            w.write_bit(false);
        },
        Some(g) => {
            w.write_bit(true);
            w.write_bits(g.num_ver as u32 - 1, 7);
            w.write_bits(g.num_hor as u32 - 1, 7);
            w.write_bit(g.independent);
            if !g.independent {
                w.write_bits(g.hyper_decoder_overlap as u32, 2);
                w.write_bits(g.mcm_overlap as u32, 4);
            }
        },
    }
    proof {
        assert(w.bits() =~= old(w).bits() + regions_code(*regions));
    }
}

/// Append a 12-bit displacement.
fn write_displacement(w: &mut BitWriter, beta: i32) -> (r: Result<()>)
    requires
        old(w).wf(),
    ensures
        final(w).wf(),
        displacement_ok(beta) ==> r is Ok && final(w).bits() == old(w).bits() + displacement_code(
            beta,
        ),
        !displacement_ok(beta) ==> r == Err::<(), Error>(
            Error::InvalidArgument("beta_displacement_log out of range"),
        ),
{
    if beta < -2048 || beta >= 2048 {
        return Err(Error::InvalidArgument("beta_displacement_log out of range"));
    }
    w.write_bits((beta + 2048) as u32, 12);
    Ok(())
}

fn write_quality_map(w: &mut BitWriter, q: &Option<QualityMapHeader>) -> (r: Result<()>)
    requires
        old(w).wf(),
    ensures
        final(w).wf(),
        q matches Some(m) && !thread_count_ok(m.num_threads) ==> r == Err::<(), Error>(
            Error::InvalidArgument("thread count must be 1, 2, 4, 8 or 16"),
        ),
        !(q matches Some(m) && !thread_count_ok(m.num_threads)) ==> r is Ok && final(w).bits()
            == old(w).bits() + quality_part(*q),
{
    proof {
        reveal(quality_part);
    }
    match q {
        None => {
            w.write_bit(false);
        },
        Some(m) => {
            w.write_bit(true);
            write_thread_count(w, m.num_threads)?;
            w.write_bits(m.entropy_index as u32, 3);
        },
    }
    proof {
        assert(w.bits() =~= old(w).bits() + quality_part(*q));
    }
    Ok(())
}

/// The index of a bit depth.
fn bit_depth_index(bit_depth: u8) -> (r: Option<u32>)
    ensures
        r == depth_index(bit_depth),
{
    match bit_depth {
        8 => Some(0),
        10 => Some(1),
        12 => Some(2),
        14 => Some(3),
        16 => Some(4),
        _ => None,
    }
}

impl PictureHeader {
    fn write_head(&self, w: &mut BitWriter, bit_depth_idc: u32)
        requires
            old(w).wf(),
            0 < self.synthesis_transforms@.len() <= 16,
            self.coded_size(),
            depth_index(self.bit_depth) == Some(bit_depth_idc),
            counts_from_one(self@),
        ensures
            final(w).wf(),
            final(w).bits() == old(w).bits() + picture_head_code(self@),
    {
        let n: usize = self.synthesis_transforms.len();
        w.write_bits(self.stream_profile_idc as u32, 4);
        w.write_bits(self.decoder_profile_id as u32, 4);
        w.write_bits(n as u32 - 1, 4);
        write_transforms(w, &self.synthesis_transforms);
        write_size(w, self, bit_depth_idc);
        write_sampling(w, self);
        write_colour(w, &self.colour_transform);
        proof {
            reveal(picture_head_code);
            assert(w.bits() =~= old(w).bits() + picture_head_code(self@));
        }
    }

    /// Serialise back to a `PIH` substream payload (round-trips through [`Self::parse`]).
    pub fn write(&self) -> (r: Result<Vec<u8>>)
        requires
            counts_from_one(self@),
        ensures
            match picture_error(self@) {
                Some(e) => r == Err::<Vec<u8>, Error>(e),
                None => r matches Ok(bytes) && bytes@ == bits::pack(picture_code(self@)),
            },
    {
        let n: usize = self.synthesis_transforms.len();
        if n == 0 || n > 16 {
            return Err(Error::InvalidArgument("1..=16 synthesis transforms required"));
        }
        if self.width < 64 || self.width > 65599 || self.height < 64 || self.height > 65599 {
            return Err(Error::InvalidArgument("picture dimensions out of range"));
        }
        if self.diff_display_width > 63 || self.diff_display_height > 63 {
            return Err(Error::InvalidArgument("diff_display_* must be below 64"));
        }
        let bit_depth_idc: u32 = match bit_depth_index(self.bit_depth) {
            Some(i) => i,
            None => {
                return Err(Error::InvalidArgument("bit depth must be one of 8, 10, 12, 14, 16"));
            },
        };
        let mut w = BitWriter::new();
        self.write_head(&mut w, bit_depth_idc);
        let ghost head = w.bits();
        proof {
            assert(head =~= picture_head_code(self@));
            lemma_cube_flag_count(self.height as int, self.width as int, 0);
            lemma_cube_flag_count(self.height as int, self.width as int, 1);
        }
        w.write_bits(self.model_id as u32, 4);
        write_thread_count(&mut w, self.num_threads_z)?;
        let beta0: i32 = self.beta_displacement_log[0];
        let beta1: i32 = self.beta_displacement_log[1];
        write_displacement(&mut w, beta0)?;
        write_regions(&mut w, &self.regions);
        let ghost b5 = w.bits();
        w.write_bit(beta0 != beta1);
        if beta0 != beta1 {
            write_displacement(&mut w, beta1)?;
        }
        proof {
            reveal(beta1_code);
            assert(w.bits() =~= b5 + beta1_code(beta0, beta1));
        }
        self.components[0].write(&mut w, self.height, self.width, 0)?;
        self.components[1].write(&mut w, self.height, self.width, 1)?;
        write_quality_map(&mut w, &self.quality_map)?;
        proof {
            reveal(picture_tail_code);
            let v = self@;
            lemma_concat8(
                head,
                bits::low_bits(v.model_id as nat, 4),
                threads_code(v.num_threads_z),
                displacement_code(v.beta.0),
                regions_code(v.regions),
                beta1_code(v.beta.0, v.beta.1),
                component_code(v.luma),
                component_code(v.chroma),
                quality_part(v.quality_map),
            );
            assert(w.bits() == picture_code(v));
        }
        Ok(w.finish())
    }
}

/// Appending parts one by one is appending them joined.
pub(crate) proof fn lemma_concat8(
    base: Seq<bool>,
    a: Seq<bool>,
    b: Seq<bool>,
    c: Seq<bool>,
    d: Seq<bool>,
    e: Seq<bool>,
    f: Seq<bool>,
    g: Seq<bool>,
    h: Seq<bool>,
)
    ensures
        base + a + b + c + d + e + f + g + h == base + (a + b + c + d + e + f + g + h),
{
    lemma_concat6(base, a, b, c, d, e, f);
    let six = a + b + c + d + e + f;
    assert(base + six + g + h =~= base + (six + g + h));
}

/// What a parsed picture header can hold, beyond what [`picture_error`] asks for: fields that fit
/// their bits, chroma as subsampled as its source, bit depths that a decoder knows, and no more
/// regions than the picture size allows.
pub open spec fn picture_codable(v: PictureView) -> bool {
    let g = v.geometry;
    &&& v.stream_profile_idc < 16
    &&& v.decoder_profile_id < 16
    &&& g.bit_depth == 8 || g.bit_depth == 10
    &&& 1 <= g.s_ver <= 2 && 1 <= g.s_hor <= 2
    &&& g.s_ver <= g.c_ver <= 2 && g.s_hor <= g.c_hor <= 2
    &&& v.colour_transform matches ColourView::Custom(m) ==> m.len() == 12
    &&& v.model_id < 16
    &&& v.regions matches Some(r) ==> regions_codable(r, g.height as int, g.width as int)
    &&& v.quality_map matches Some(q) ==> q.entropy_index < 8
}

/// What parsed regions can be.
pub open spec fn regions_codable(r: Regions, height: int, width: int) -> bool {
    &&& 1 <= r.num_ver <= 128 && r.num_ver <= ceil_of(height, 256)
    &&& 1 <= r.num_hor <= 128 && r.num_hor <= ceil_of(width, 512)
    &&& r.hyper_decoder_overlap < 4
    &&& r.mcm_overlap < 16
    &&& r.independent ==> r.hyper_decoder_overlap == 0 && r.mcm_overlap == 0
}

proof fn lemma_transforms_at(s: Seq<bool>, pos: int, ts: Seq<OperatingPoint>, i: int)
    requires
        0 <= i <= ts.len(),
        bits::has_at(s, pos, transforms_code(ts)),
    ensures
        bits::has_at(s, pos, transforms_code(ts.take(i))),
        i < ts.len() ==> transforms_code(ts.take(i + 1)) == transforms_code(ts.take(i))
            + bits::low_bits(ts[i].spec_id(), 4),
        i < ts.len() ==> bits::has_at(
            s,
            pos + transforms_code(ts.take(i)).len(),
            bits::low_bits(ts[i].spec_id(), 4),
        ),
    decreases ts.len() - i,
{
    if i == ts.len() {
        assert(ts.take(i) =~= ts);
    } else {
        lemma_transforms_at(s, pos, ts, i + 1);
        assert(ts.take(i + 1).drop_last() =~= ts.take(i));
        assert(ts.take(i + 1).last() == ts[i]);
        bits::lemma_has_at_concat(
            s,
            pos,
            transforms_code(ts.take(i)),
            bits::low_bits(ts[i].spec_id(), 4),
        );
    }
}

proof fn lemma_read_transforms(s: Seq<bool>, pos: int, ts: Seq<OperatingPoint>, i: int)
    requires
        0 <= i <= ts.len(),
        bits::has_at(s, pos, transforms_code(ts)),
    ensures
        spec_transforms(
            s,
            pos + transforms_code(ts.take(i)).len(),
            (ts.len() - i) as nat,
            ts.take(i),
        ) == Ok::<(Seq<OperatingPoint>, int), Error>((ts, pos + transforms_code(ts).len())),
    decreases ts.len() - i,
{
    if i == ts.len() {
        assert(ts.take(i) =~= ts);
    } else {
        power2::lemma2_to64();
        lemma_transforms_at(s, pos, ts, i);
        bitio::lemma_field(s, pos + transforms_code(ts.take(i)).len(), ts[i].spec_id(), 4);
        assert(ts.take(i).push(ts[i]) =~= ts.take(i + 1));
        lemma_read_transforms(s, pos, ts, i + 1);
    }
}

/// A one-bit field is its bit.
proof fn lemma_bit_field(s: Seq<bool>, pos: int, v: nat)
    requires
        v < 2,
        bits::has_at(s, pos, bits::low_bits(v, 1)),
    ensures
        pos + 1 <= s.len(),
        s[pos] == (v == 1),
{
    bits::lemma_low_bits_one(v);
    bitio::law_bit_round_trip(s, pos, v == 1);
}

proof fn lemma_read_geometry(s: Seq<bool>, pos: int, g: Geometry)
    requires
        64 <= g.width <= 65599,
        64 <= g.height <= 65599,
        g.diff_display_width < 64,
        g.diff_display_height < 64,
        g.bit_depth == 8 || g.bit_depth == 10,
        1 <= g.s_ver <= 2,
        1 <= g.s_hor <= 2,
        g.s_ver <= g.c_ver <= 2,
        g.s_hor <= g.c_hor <= 2,
        bits::has_at(s, pos, size_code(g)),
        bits::has_at(s, pos + size_code(g).len(), sampling_code(g)),
    ensures
        spec_geometry(s, pos) == Ok::<(Geometry, int), Error>(
            (g, pos + size_code(g).len() + sampling_code(g).len()),
        ),
{
    reveal(spec_geometry);
    reveal(size_code);
    reveal(sampling_code);
    power2::lemma2_to64();
    let l = bits::low_bits(g.level_idc as nat, 8);
    let w = bits::low_bits((g.width - 64) as nat, 16);
    let h = bits::low_bits((g.height - 64) as nat, 16);
    let dw = bits::low_bits(g.diff_display_width as nat, 6);
    let dh = bits::low_bits(g.diff_display_height as nat, 6);
    let d = bits::low_bits(depth_index(g.bit_depth)->0 as nat, 3);
    bits::lemma_has_at_concat(s, pos, l + w + h + dw + dh, d);
    bits::lemma_has_at_concat(s, pos, l + w + h + dw, dh);
    bits::lemma_has_at_concat(s, pos, l + w + h, dw);
    bits::lemma_has_at_concat(s, pos, l + w, h);
    bits::lemma_has_at_concat(s, pos, l, w);
    bitio::lemma_field(s, pos, g.level_idc as nat, 8);
    bitio::lemma_field(s, pos + 8, (g.width - 64) as nat, 16);
    bitio::lemma_field(s, pos + 24, (g.height - 64) as nat, 16);
    bitio::lemma_field(s, pos + 40, g.diff_display_width as nat, 6);
    bitio::lemma_field(s, pos + 46, g.diff_display_height as nat, 6);
    bitio::lemma_field(s, pos + 52, depth_index(g.bit_depth)->0 as nat, 3);
    let sv = bits::low_bits((g.s_ver - 1) as nat, 1);
    let sh = bits::low_bits((g.s_hor - 1) as nat, 1);
    let cv = if g.s_ver == 1 {
        bits::low_bits((g.c_ver - 1) as nat, 1)
    } else {
        Seq::empty()
    };
    let ch = if g.s_hor == 1 {
        bits::low_bits((g.c_hor - 1) as nat, 1)
    } else {
        Seq::empty()
    };
    bits::lemma_has_at_concat(s, pos + 55, sv + sh + cv, ch);
    bits::lemma_has_at_concat(s, pos + 55, sv + sh, cv);
    bits::lemma_has_at_concat(s, pos + 55, sv, sh);
    lemma_bit_field(s, pos + 55, (g.s_ver - 1) as nat);
    lemma_bit_field(s, pos + 56, (g.s_hor - 1) as nat);
    if g.s_ver == 1 {
        lemma_bit_field(s, pos + 57, (g.c_ver - 1) as nat);
    }
    if g.s_hor == 1 {
        lemma_bit_field(s, pos + 57 + cv.len(), (g.c_hor - 1) as nat);
    }
}

proof fn lemma_read_colour(s: Seq<bool>, pos: int, c: ColourView)
    requires
        c matches ColourView::Custom(m) ==> m.len() == 12,
        bits::has_at(s, pos, colour_code(c)),
    ensures
        spec_colour(s, pos) == Ok::<(ColourView, int), Error>((c, pos + colour_code(c).len())),
{
    reveal(spec_colour);
    reveal(colour_code);
    power2::lemma2_to64();
    match c {
        ColourView::Plain => {
            bitio::lemma_field(s, pos, 0, 2);
        },
        ColourView::Bt709 => {
            bitio::lemma_field(s, pos, 1, 2);
        },
        ColourView::Custom(m) => {
            bits::lemma_has_at_concat(s, pos, bits::low_bits(2, 2), bits::of_bytes(m));
            bitio::lemma_field(s, pos, 2, 2);
            let read = Seq::new(12, |i: int| bitio::field(s, pos + 2 + 8 * i, 8) as u8);
            assert forall|i: int| 0 <= i < 12 implies read[i] == m[i] by {
                bitio::lemma_byte_at(s, pos + 2, m, i);
            }
            assert(read =~= m);
        },
    }
}

proof fn lemma_read_threads(s: Seq<bool>, pos: int, n: u8)
    requires
        thread_count_ok(n),
        bits::has_at(s, pos, threads_code(n)),
    ensures
        spec_threads(s, pos) == Ok::<(u8, int), Error>((n, pos + threads_code(n).len())),
{
    reveal(spec_threads);
    reveal(threads_code);
    power2::lemma2_to64();
    if n == 1 {
        bitio::law_bit_round_trip(s, pos, false);
    } else {
        let e = if n == 2 {
            0nat
        } else if n == 4 {
            1
        } else if n == 8 {
            2
        } else {
            3
        };
        bits::lemma_has_at_concat(s, pos, seq![true], bits::low_bits(e, 2));
        bitio::law_bit_round_trip(s, pos, true);
        bitio::lemma_field(s, pos + 1, e, 2);
    }
}

proof fn lemma_read_regions(s: Seq<bool>, pos: int, regions: Option<Regions>, height: int, width: int)
    requires
        regions matches Some(r) ==> regions_codable(r, height, width),
        bits::has_at(s, pos, regions_code(regions)),
    ensures
        spec_regions(s, pos, height, width) == Ok::<(Option<Regions>, int), Error>(
            (regions, pos + regions_code(regions).len()),
        ),
{
    reveal(spec_regions);
    reveal(regions_code);
    power2::lemma2_to64();
    match regions {
        None => {
            bitio::law_bit_round_trip(s, pos, false);
        },
        Some(g) => {
            let f = seq![true];
            let v = bits::low_bits((g.num_ver - 1) as nat, 7);
            let h = bits::low_bits((g.num_hor - 1) as nat, 7);
            let i = seq![g.independent];
            let hd = bits::low_bits(g.hyper_decoder_overlap as nat, 2);
            let mc = bits::low_bits(g.mcm_overlap as nat, 4);
            let rest = if g.independent {
                Seq::empty()
            } else {
                hd + mc
            };
            bits::lemma_has_at_concat(s, pos, f + v + h + i, rest);
            bits::lemma_has_at_concat(s, pos, f + v + h, i);
            bits::lemma_has_at_concat(s, pos, f + v, h);
            bits::lemma_has_at_concat(s, pos, f, v);
            bitio::law_bit_round_trip(s, pos, true);
            bitio::lemma_field(s, pos + 1, (g.num_ver - 1) as nat, 7);
            bitio::lemma_field(s, pos + 8, (g.num_hor - 1) as nat, 7);
            bitio::law_bit_round_trip(s, pos + 15, g.independent);
            if !g.independent {
                bits::lemma_has_at_concat(s, pos + 16, hd, mc);
                bitio::lemma_field(s, pos + 16, g.hyper_decoder_overlap as nat, 2);
                bitio::lemma_field(s, pos + 18, g.mcm_overlap as nat, 4);
            }
        },
    }
}

proof fn lemma_read_displacement(s: Seq<bool>, pos: int, beta: i32)
    requires
        displacement_ok(beta),
        bits::has_at(s, pos, displacement_code(beta)),
    ensures
        displacement(s, pos) == beta,
        displacement_code(beta).len() == 12,
{
    power2::lemma2_to64();
    bitio::lemma_field(s, pos, (beta + 2048) as nat, 12);
}

proof fn lemma_read_beta1(s: Seq<bool>, pos: int, beta0: i32, beta1: i32)
    requires
        displacement_ok(beta1),
        bits::has_at(s, pos, beta1_code(beta0, beta1)),
    ensures
        spec_beta1(s, pos, beta0) == Ok::<(i32, int), Error>(
            (beta1, pos + beta1_code(beta0, beta1).len()),
        ),
{
    reveal(spec_beta1);
    reveal(beta1_code);
    if beta0 == beta1 {
        bitio::law_bit_round_trip(s, pos, false);
    } else {
        bits::lemma_has_at_concat(s, pos, seq![true], displacement_code(beta1));
        bitio::law_bit_round_trip(s, pos, true);
        lemma_read_displacement(s, pos + 1, beta1);
    }
}

proof fn lemma_read_cube_flags(s: Seq<bool>, pos: int, flags: Seq<bool>, i: int)
    requires
        0 <= i,
        bits::has_at(s, pos, cube_code(flags, i)),
    ensures
        i <= flags.len() ==> spec_cube_flags(s, pos, flags.len(), flags.take(i)) == Ok::<
            (Seq<bool>, int),
            Error,
        >((flags, pos + cube_code(flags, i).len())),
    decreases flags.len() - i + 8,
{
    if i < flags.len() {
        let g = group_at(flags, i);
        let rest = cube_code(flags, i + 8);
        bits::lemma_has_at_concat(s, pos, group_code(g), rest);
        let next = if i + 8 < flags.len() {
            i + 8
        } else {
            flags.len() as int
        };
        assert(flags.take(i) + g =~= flags.take(next));
        if g == all_set(g.len()) {
            bitio::law_bit_round_trip(s, pos, false);
        } else {
            bits::lemma_has_at_concat(s, pos, seq![true], g);
            bitio::law_bit_round_trip(s, pos, true);
        }
        if i + 8 <= flags.len() {
            lemma_read_cube_flags(s, pos + group_code(g).len(), flags, i + 8);
        } else {
            assert(rest =~= Seq::empty());
            assert(flags.take(next) =~= flags);
        }
    } else if i == flags.len() {
        assert(flags.take(i) =~= flags);
    }
}

proof fn lemma_read_tiling(s: Seq<bool>, pos: int, t: SynthesisTiling, zero: &'static str)
    requires
        t.tile_size % 16 == 0,
        t.overlap % 16 == 0,
        0 < t.tile_size <= 255 * 16,
        t.overlap <= 31 * 16,
        bits::has_at(s, pos, tiling_code(t)),
    ensures
        spec_tiling(s, pos, zero) == Ok::<(SynthesisTiling, int), Error>(
            (t, pos + tiling_code(t).len()),
        ),
{
    reveal(spec_tiling);
    reveal(tiling_code);
    power2::lemma2_to64();
    let a = bits::low_bits((t.tile_size / 16) as nat, 8);
    let b = bits::low_bits((t.overlap / 16) as nat, 5);
    bits::lemma_has_at_concat(s, pos, a, b);
    bitio::lemma_field(s, pos, (t.tile_size / 16) as nat, 8);
    bitio::lemma_field(s, pos + 8, (t.overlap / 16) as nat, 5);
}

/// A tiling with the flag before it.
pub(crate) proof fn lemma_read_tiling_part(
    s: Seq<bool>,
    pos: int,
    t: Option<SynthesisTiling>,
    zero: &'static str,
)
    requires
        t matches Some(x) ==> x.tile_size % 16 == 0 && x.overlap % 16 == 0 && 0 < x.tile_size
            <= 255 * 16 && x.overlap <= 31 * 16,
        bits::has_at(s, pos, tiling_part(t)),
    ensures
        flagged(s, pos, spec_tiling(s, pos + 1, zero)) == Ok::<(Option<SynthesisTiling>, int), Error>(
            (t, pos + tiling_part(t).len()),
        ),
{
    match t {
        None => {
            bitio::law_bit_round_trip(s, pos, false);
        },
        Some(x) => {
            bits::lemma_has_at_concat(s, pos, seq![true], tiling_code(x));
            bitio::law_bit_round_trip(s, pos, true);
            lemma_read_tiling(s, pos + 1, x, zero);
        },
    }
}

proof fn lemma_read_cube_part(s: Seq<bool>, pos: int, c: ComponentView, count: nat)
    requires
        c.cube_flags matches Some(f) ==> f.len() == count,
        bits::has_at(s, pos, cube_part(c)),
    ensures
        flagged(s, pos, spec_cube_flags(s, pos + 1, count, Seq::empty())) == Ok::<
            (Option<Seq<bool>>, int),
            Error,
        >((c.cube_flags, pos + cube_part(c).len())),
{
    match c.cube_flags {
        None => {
            bitio::law_bit_round_trip(s, pos, false);
        },
        Some(f) => {
            bits::lemma_has_at_concat(s, pos, seq![true], cube_code(f, 0));
            bitio::law_bit_round_trip(s, pos, true);
            lemma_read_cube_flags(s, pos + 1, f, 0);
            assert(f.take(0) =~= Seq::empty());
        },
    }
}

proof fn lemma_read_grfs_part(s: Seq<bool>, pos: int, c: ComponentView)
    requires
        c.grfs_channel_flags matches Some(f) ==> f.len() == c.num_chs,
        bits::has_at(s, pos, grfs_part(c)),
    ensures
        flagged(s, pos, spec_flags(s, pos + 1, c.num_chs as nat)) == Ok::<
            (Option<Seq<bool>>, int),
            Error,
        >((c.grfs_channel_flags, pos + grfs_part(c).len())),
{
    match c.grfs_channel_flags {
        None => {
            bitio::law_bit_round_trip(s, pos, false);
        },
        Some(f) => {
            bits::lemma_has_at_concat(s, pos, seq![true], f);
            bitio::law_bit_round_trip(s, pos, true);
        },
    }
}

proof fn lemma_read_component(
    s: Seq<bool>,
    pos: int,
    c: ComponentView,
    height: int,
    width: int,
    ccs: int,
)
    requires
        0 <= ccs < 2,
        0 <= height <= 65599,
        0 <= width <= 65599,
        component_error(c, height, width, ccs) is None,
        bits::has_at(s, pos, component_code(c)),
    ensures
        spec_component(s, pos, height, width, ccs) == Ok::<(ComponentView, int), Error>(
            (c, pos + component_code(c).len()),
        ),
{
    reveal(spec_component);
    reveal(component_code);
    power2::lemma2_to64();
    lemma_cube_flag_count(height, width, ccs);
    let t = threads_code(c.num_threads_r);
    let n = bits::low_bits(c.num_chs as nat, 8);
    let k = cube_part(c);
    let f = seq![c.rvs_enabled];
    let g = grfs_part(c);
    let l = tiling_part(c.synthesis_tiling);
    bits::lemma_has_at_concat(s, pos, t + n + k + f + g, l);
    bits::lemma_has_at_concat(s, pos, t + n + k + f, g);
    bits::lemma_has_at_concat(s, pos, t + n + k, f);
    bits::lemma_has_at_concat(s, pos, t + n, k);
    bits::lemma_has_at_concat(s, pos, t, n);
    let p1 = pos + t.len();
    let p2 = p1 + 8 + k.len();
    let p3 = p2 + 1 + g.len();
    lemma_read_threads(s, pos, c.num_threads_r);
    bitio::lemma_field(s, p1, c.num_chs as nat, 8);
    lemma_read_cube_part(s, p1 + 8, c, spec_cube_flag_count(height, width, ccs) as nat);
    bitio::law_bit_round_trip(s, p2, c.rvs_enabled);
    lemma_read_grfs_part(s, p2 + 1, c);
    lemma_read_tiling_part(s, p3, c.synthesis_tiling, "synthesis_tile_size is zero");
}

proof fn lemma_read_quality_part(s: Seq<bool>, pos: int, q: Option<QualityMapHeader>)
    requires
        q matches Some(m) ==> thread_count_ok(m.num_threads) && m.entropy_index < 8,
        bits::has_at(s, pos, quality_part(q)),
    ensures
        flagged(s, pos, spec_quality_map(s, pos + 1)) == Ok::<
            (Option<QualityMapHeader>, int),
            Error,
        >((q, pos + quality_part(q).len())),
{
    reveal(spec_quality_map);
    reveal(quality_part);
    power2::lemma2_to64();
    match q {
        None => {
            bitio::law_bit_round_trip(s, pos, false);
        },
        Some(m) => {
            let t = threads_code(m.num_threads);
            let e = bits::low_bits(m.entropy_index as nat, 3);
            bits::lemma_has_at_concat(s, pos, seq![true] + t, e);
            bits::lemma_has_at_concat(s, pos, seq![true], t);
            bitio::law_bit_round_trip(s, pos, true);
            lemma_read_threads(s, pos + 1, m.num_threads);
            bitio::lemma_field(s, pos + 1 + t.len(), m.entropy_index as nat, 3);
        },
    }
}

proof fn lemma_read_tail(s: Seq<bool>, pos: int, v: PictureView)
    requires
        picture_error(v) is None,
        picture_codable(v),
        bits::has_at(s, pos, picture_tail_code(v)),
    ensures
        spec_coding(
            s,
            pos,
            v.stream_profile_idc,
            v.decoder_profile_id,
            v.synthesis_transforms,
            v.geometry,
            v.colour_transform,
        ) == Ok::<(PictureView, int), Error>((v, pos + picture_tail_code(v).len())),
{
    reveal(picture_tail_code);
    power2::lemma2_to64();
    let (h, w) = (v.geometry.height as int, v.geometry.width as int);
    let m = bits::low_bits(v.model_id as nat, 4);
    let t = threads_code(v.num_threads_z);
    let d = displacement_code(v.beta.0);
    let g = regions_code(v.regions);
    let b = beta1_code(v.beta.0, v.beta.1);
    let l = component_code(v.luma);
    let c = component_code(v.chroma);
    let q = quality_part(v.quality_map);
    bits::lemma_has_at_concat(s, pos, m + t + d + g + b + l + c, q);
    bits::lemma_has_at_concat(s, pos, m + t + d + g + b + l, c);
    bits::lemma_has_at_concat(s, pos, m + t + d + g + b, l);
    bits::lemma_has_at_concat(s, pos, m + t + d + g, b);
    bits::lemma_has_at_concat(s, pos, m + t + d, g);
    bits::lemma_has_at_concat(s, pos, m + t, d);
    bits::lemma_has_at_concat(s, pos, m, t);
    let p1 = pos + 4 + t.len();
    let p2 = p1 + 12 + g.len();
    let p3 = p2 + b.len();
    let p4 = p3 + l.len();
    let p5 = p4 + c.len();
    bitio::lemma_field(s, pos, v.model_id as nat, 4);
    lemma_read_threads(s, pos + 4, v.num_threads_z);
    lemma_read_displacement(s, p1, v.beta.0);
    lemma_read_regions(s, p1 + 12, v.regions, h, w);
    lemma_read_beta1(s, p2, v.beta.0, v.beta.1);
    lemma_read_component(s, p3, v.luma, h, w, 0);
    lemma_read_component(s, p4, v.chroma, h, w, 1);
    lemma_read_quality_part(s, p5, v.quality_map);
}

/// A picture header that was written parses to what was written, wherever a decoder accepts its
/// bit depth.
pub proof fn law_picture_round_trip(v: PictureView)
    requires
        picture_error(v) is None,
        picture_codable(v),
    ensures
        spec_picture(bits::of_bytes(bits::pack(picture_code(v)))) == Ok::<(PictureView, int), Error>(
            (v, picture_code(v).len() as int),
        ),
{
    let code = picture_code(v);
    let s = bits::of_bytes(bits::pack(code));
    bits::lemma_pack(code);
    let head = picture_head_code(v);
    bits::lemma_has_at_concat(s, 0, head, picture_tail_code(v));
    lemma_read_tail(s, head.len() as int, v);
    reveal(picture_head_code);
    power2::lemma2_to64();
    let a = bits::low_bits(v.stream_profile_idc as nat, 4);
    let b = bits::low_bits(v.decoder_profile_id as nat, 4);
    let n = bits::low_bits((v.synthesis_transforms.len() - 1) as nat, 4);
    let t = transforms_code(v.synthesis_transforms);
    let z = size_code(v.geometry);
    let m = sampling_code(v.geometry);
    let c = colour_code(v.colour_transform);
    bits::lemma_has_at_concat(s, 0, a + b + n + t + z + m, c);
    bits::lemma_has_at_concat(s, 0, a + b + n + t + z, m);
    bits::lemma_has_at_concat(s, 0, a + b + n + t, z);
    bits::lemma_has_at_concat(s, 0, a + b + n, t);
    bits::lemma_has_at_concat(s, 0, a + b, n);
    bits::lemma_has_at_concat(s, 0, a, b);
    bitio::lemma_field(s, 0, v.stream_profile_idc as nat, 4);
    bitio::lemma_field(s, 4, v.decoder_profile_id as nat, 4);
    bitio::lemma_field(s, 8, (v.synthesis_transforms.len() - 1) as nat, 4);
    lemma_read_transforms(s, 12, v.synthesis_transforms, 0);
    assert(v.synthesis_transforms.take(0) =~= Seq::empty());
    let p1 = 12 + t.len() as int;
    lemma_read_geometry(s, p1, v.geometry);
    lemma_read_colour(s, p1 + z.len() + m.len(), v.colour_transform);
}

/// Largest picture, in luma samples, of a picture-size level.
pub open spec fn level_samples(level: int) -> Option<int> {
    if level == 1 {
        Some(6_220_800)
    } else if level == 2 {
        Some(24_883_200)
    } else if level == 3 {
        Some(99_532_800)
    } else if level == 4 {
        Some(149_817_600)
    } else if level == 5 {
        Some(398_131_200)
    } else {
        None
    }
}

/// Whether a profile lets a stream be decoded with an operating point by default: the simple
/// profile with the simple one only, each further profile with one more.
pub open spec fn profile_allows(profile: u8, op: OperatingPoint) -> bool {
    op.spec_id() <= profile
}

/// Whether a model-set level permits a model.
pub open spec fn level_permits(level: int, model_id: u8) -> bool {
    if level == 0 {
        model_id == 2
    } else if level == 1 {
        model_id == 2 || model_id == 3
    } else {
        model_id <= 3
    }
}

/// Why a picture header does not conform to its declared profile and level, if it does not: the
/// first of these that holds.
pub open spec fn conformance_error(v: PictureView) -> Option<Error> {
    let g = v.geometry;
    let size_level = level_samples(g.level_idc as int / 10);
    if v.stream_profile_idc != 0 {
        Some(Error::NonConforming("unknown stream_profile_idc"))
    } else if v.decoder_profile_id > 2 {
        Some(Error::NonConforming("unknown decoder_profile_id"))
    } else if v.synthesis_transforms.len() == 0 {
        Some(Error::NonConforming("no synthesis transform"))
    } else if !profile_allows(v.decoder_profile_id, v.synthesis_transforms[0]) {
        Some(Error::NonConforming("default synthesis transform not in profile"))
    } else if size_level is None {
        Some(Error::NonConforming("unknown picture-size level"))
    } else if g.width * g.height > size_level->0 {
        Some(Error::NonConforming("picture larger than the level allows"))
    } else if g.level_idc % 10 > 2 {
        Some(Error::NonConforming("unknown model-set level"))
    } else if !level_permits(g.level_idc as int % 10, v.model_id) {
        Some(Error::NonConforming("model_id not permitted at this level"))
    } else {
        None
    }
}

impl PictureHeader {
    /// Check the stream against its declared profile and level.
    pub fn check_conformance(&self) -> (r: Result<()>)
        ensures
            match conformance_error(self@) {
                Some(e) => r == Err::<(), Error>(e),
                None => r == Ok::<(), Error>(()),
            },
    {
        if self.stream_profile_idc != 0 {
            return Err(Error::NonConforming("unknown stream_profile_idc"));
        }
        if self.decoder_profile_id > 2 {
            return Err(Error::NonConforming("unknown decoder_profile_id"));
        }
        if self.synthesis_transforms.len() == 0 {
            return Err(Error::NonConforming("no synthesis transform"));
        }
        let allowed: bool = match self.synthesis_transforms[0] {
            OperatingPoint::Sop => true,
            OperatingPoint::Bop => self.decoder_profile_id >= 1,
            OperatingPoint::Hop => self.decoder_profile_id >= 2,
        };
        if !allowed {
            return Err(Error::NonConforming("default synthesis transform not in profile"));
        }
        let max_pic_size: u64 = match self.level_idc / 10 {
            1 => 6_220_800,
            2 => 24_883_200,
            3 => 99_532_800,
            4 => 149_817_600,
            5 => 398_131_200,
            _ => return Err(Error::NonConforming("unknown picture-size level")),
        };
        proof {
            let (w, h) = (self.width as int, self.height as int);
            assert(w * h <= 0xffff_ffff * 0xffff_ffff) by (nonlinear_arith)
                requires
                    0 <= w <= 0xffff_ffff,
                    0 <= h <= 0xffff_ffff,
            ;
        }
        if self.width as u64 * self.height as u64 > max_pic_size {
            return Err(Error::NonConforming("picture larger than the level allows"));
        }
        let permitted: bool = match self.level_idc % 10 {
            0 => self.model_id == 2,
            1 => self.model_id == 2 || self.model_id == 3,
            2 => self.model_id <= 3,
            _ => return Err(Error::NonConforming("unknown model-set level")),
        };
        if !permitted {
            return Err(Error::NonConforming("model_id not permitted at this level"));
        }
        Ok(())
    }
}

} // verus!
