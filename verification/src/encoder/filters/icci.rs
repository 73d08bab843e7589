//! eICCI model selection: the candidates that a tile's search scores, and what it signals.
//!
//! Per filter tile the search scores every `(luma, chroma)` candidate pair of the active map. The
//! luma model that strictly improves the running luma error wins Y; the chroma model whose largest
//! gain, of both planes or of one, strictly beats the running best wins the planes that this gain
//! covers. The scores are arithmetic on samples; the search only hears how they compare.

use vstd::prelude::*;

use crate::encoder::filters::efe_linear::PlaneSizes;
use crate::encoder::tiles;
use crate::error::{Error, Result};
use crate::filters::icci;
use crate::filters::icci::{FilterTile, CHROMA_SHORT_LIST, LUMA_SHORT_LIST};
use crate::header::tools;
use crate::header::{IcciHeader, IcciTile, OperatingPoint, PictureHeader, SynthesisTiling};

verus! {

/// The loss the per-tile search minimizes.
#[derive(Clone, Copy, Debug, PartialEq, Eq, Structural)]
pub enum EicciLoss {
    /// Mean squared error alone.
    Mse,
    /// `1 - ms_ssim` per channel alone.
    MsSsim,
    /// `weight[0] * mse + weight[1] * msssim` per channel.
    Mixed,
}

impl Default for EicciLoss {
    /// The weighted mix.
    fn default() -> (l: Self)
        ensures
            l == EicciLoss::Mixed,
    {
        EicciLoss::Mixed
    }
}

/// The filter's tiling, where it tiles: with fewer samples per tile than the picture has. The
/// tile size is `root`, the square root of that number without its fraction, rounded up to a
/// multiple of 16.
pub open spec fn spec_tiling(height: int, width: int, tile_samples: u32, tile_overlap: u32, root: int) -> Option<SynthesisTiling> {
    if tile_samples != u32::MAX && tile_samples < height * width {
        Some(
            SynthesisTiling {
                tile_size: (tiles::ceil(root, 16) * 16) as u32,
                overlap: tile_overlap,
            },
        )
    } else {
        None
    }
}

/// The tiling cannot be signalled.
pub open spec fn bad_tiling(t: Option<SynthesisTiling>) -> bool {
    t matches Some(t) && (t.overlap as int % 16 != 0 || t.tile_size as int / 16 > 255
        || t.overlap as int / 16 > 31)
}

/// The tiling and the filter tiles, or why there are none.
pub open spec fn spec_enc_layout(
    height: int,
    width: int,
    tile_samples: u32,
    tile_overlap: u32,
    root: int,
) -> core::result::Result<(Option<SynthesisTiling>, Seq<FilterTile>), Error> {
    let t = spec_tiling(height, width, tile_samples, tile_overlap, root);
    if bad_tiling(t) {
        Err(Error::InvalidArgument("eICCI: tile size/overlap"))
    } else {
        match icci::spec_layout(height, width, t) {
            Ok(s) => Ok((t, s)),
            Err(e) => Err(e),
        }
    }
}

/// The filter tiles of a `height x width` picture when `tile_samples` is what a tile may hold
/// (`u32::MAX`: never tile). `None` - the filter is one tile - also when that covers the picture.
pub fn enc_tile_layout(height: usize, width: usize, tile_samples: u32, tile_overlap: u32) -> (r: Result<
    (Option<SynthesisTiling>, Vec<FilterTile>),
>)
    ensures
        exists|root: int|
            #![trigger tiles::is_root(root, tile_samples as int)]
            tiles::is_root(root, tile_samples as int) && match spec_enc_layout(
                height as int,
                width as int,
                tile_samples,
                tile_overlap,
                root,
            ) {
                Ok(l) => r matches Ok(v) && v.0 == l.0 && v.1@ == l.1,
                Err(e) => r == Err::<(Option<SynthesisTiling>, Vec<FilterTile>), Error>(e),
            },
{
    proof {
        assert(0 <= height * width <= 0xffff_ffff_ffff_ffff * 0xffff_ffff_ffff_ffff)
            by (nonlinear_arith)
            requires
                0 <= height <= 0xffff_ffff_ffff_ffff,
                0 <= width <= 0xffff_ffff_ffff_ffff,
        ;
    }
    let root: usize = tiles::floor_sqrt(tile_samples as usize);
    let enabled: bool = tile_samples != u32::MAX && (tile_samples as u128) < height as u128
        * width as u128;
    let tiling: Option<SynthesisTiling> = if enabled {
        let size: usize = tiles::div_up(root, 16) * 16;
        Some(SynthesisTiling { tile_size: size as u32, overlap: tile_overlap })
    } else {
        None
    };
    if let Some(t) = tiling {
        if t.overlap % 16 != 0 || t.tile_size / 16 > 255 || t.overlap / 16 > 31 {
            return Err(Error::InvalidArgument("eICCI: tile size/overlap"));
        }
    }
    let layout: Vec<FilterTile> = icci::tile_layout(height, width, tiling)?;
    Ok((tiling, layout))
}

/// The networks that are tried, in order: the model's short list, or the whole bank.
pub open spec fn spec_map(list: [[[u8; 2]; 5]; 3], short_list: bool, op: OperatingPoint, model: int) -> Seq<u8> {
    if short_list {
        seq![icci::short_entry(list, op, model, 0), icci::short_entry(list, op, model, 1)]
    } else {
        Seq::new(10, |i: int| i as u8)
    }
}

/// The networks that are tried for luma and for chroma.
pub fn candidates(short_list: bool, op: OperatingPoint, model_id: usize) -> (r: Result<
    (Vec<u8>, Vec<u8>),
>)
    ensures
        if model_id >= 5 {
            r == Err::<(Vec<u8>, Vec<u8>), Error>(
                Error::InvalidArgument("eICCI: model id out of range"),
            )
        } else {
            r matches Ok(m) && m.0@ == spec_map(LUMA_SHORT_LIST, short_list, op, model_id as int)
                && m.1@ == spec_map(CHROMA_SHORT_LIST, short_list, op, model_id as int)
        },
{
    if model_id >= 5 {
        return Err(Error::InvalidArgument("eICCI: model id out of range"));
    }
    Ok(
        (
            make_map(&LUMA_SHORT_LIST, short_list, op, model_id),
            make_map(&CHROMA_SHORT_LIST, short_list, op, model_id),
        ),
    )
}

/// The networks that are tried, in order.
fn make_map(list: &[[[u8; 2]; 5]; 3], short_list: bool, op: OperatingPoint, model: usize) -> (m: Vec<
    u8,
>)
    requires
        model < 5,
    ensures
        m@ == spec_map(*list, short_list, op, model as int),
{
    let mut m: Vec<u8> = Vec::new();
    if short_list {
        let row: usize = op.id() as usize;
        m.push(list[row][model][0]);
        m.push(list[row][model][1]);
    } else {
        let mut i: u8 = 0;
        while i < 10
            invariant
                i <= 10,
                m@.len() == i,
                forall|k: int| 0 <= k < i ==> #[trigger] m@[k] == k,
            decreases 10 - i,
        {
            m.push(i);
            i = i + 1;
        }
    }
    proof {
        assert(m@ =~= spec_map(*list, short_list, op, model as int));
    }
    m
}

/// What a search over the tiles of a picture goes through.
#[derive(Debug)]
pub struct SelectPlan {
    pub tiling: Option<SynthesisTiling>,
    pub tiles: Vec<FilterTile>,
    /// The networks that are tried for luma, and for chroma.
    pub map_y: Vec<u8>,
    pub map_uv: Vec<u8>,
}

/// One full-size plane per component; the source may be larger than the reconstruction.
pub open spec fn full_planes(org: PlaneSizes, rec: PlaneSizes) -> bool {
    &&& 1 <= rec.y.h <= org.y.h
    &&& 1 <= rec.y.w <= org.y.w
    &&& rec.y.c == 1 && rec.u == rec.y && rec.v == rec.y
    &&& org.y.c == 1 && org.u == org.y && org.v == org.y
}

/// Why no search can run, in the order of the checks.
pub open spec fn select_error(
    hdr: PictureHeader,
    org: PlaneSizes,
    rec: PlaneSizes,
    tile_samples: u32,
    tile_overlap: u32,
    root: int,
) -> Option<Error> {
    let (h, w) = (rec.y.h as int, rec.y.w as int);
    if !full_planes(org, rec) {
        Some(Error::InvalidArgument("eICCI: expects 4:4:4 planes"))
    } else {
        match spec_enc_layout(h, w, tile_samples, tile_overlap, root) {
            Err(e) => Some(e),
            Ok(l) => if l.0 is Some && !(hdr.height == h && hdr.width == w) {
                Some(Error::Unsupported("eICCI tiling on a picture with a non-displayed border"))
            } else if hdr.model_id >= 5 {
                Some(Error::InvalidArgument("eICCI: model id out of range"))
            } else {
                None
            },
        }
    }
}

/// The plan of a search, which has these tiles and maps.
pub open spec fn plan_says(
    p: SelectPlan,
    hdr: PictureHeader,
    op: OperatingPoint,
    short_list: bool,
    layout: (Option<SynthesisTiling>, Seq<FilterTile>),
) -> bool {
    &&& p.tiling == layout.0
    &&& p.tiles@ == layout.1
    &&& p.map_y@ == spec_map(LUMA_SHORT_LIST, short_list, op, hdr.model_id as int)
    &&& p.map_uv@ == spec_map(CHROMA_SHORT_LIST, short_list, op, hdr.model_id as int)
}

/// What the search for a picture's networks goes through; `None` for a source with fewer chroma
/// samples than luma samples, which is not filtered. Tiles are signalled on the coded size, so a
/// tiled picture has no border that is not displayed.
pub fn select_plan(
    hdr: &PictureHeader,
    op: OperatingPoint,
    org: PlaneSizes,
    rec: PlaneSizes,
    short_list: bool,
    tile_samples: u32,
    tile_overlap: u32,
) -> (r: Result<Option<SelectPlan>>)
    ensures
        hdr.s_ver != 1 || hdr.s_hor != 1 ==> r == Ok::<Option<SelectPlan>, Error>(None),
        hdr.s_ver == 1 && hdr.s_hor == 1 ==> exists|root: int|
            #![trigger tiles::is_root(root, tile_samples as int)]
            tiles::is_root(root, tile_samples as int) && match select_error(
                *hdr,
                org,
                rec,
                tile_samples,
                tile_overlap,
                root,
            ) {
                Some(e) => r == Err::<Option<SelectPlan>, Error>(e),
                None => r matches Ok(Some(p)) && plan_says(
                    p,
                    *hdr,
                    op,
                    short_list,
                    spec_enc_layout(
                        rec.y.h as int,
                        rec.y.w as int,
                        tile_samples,
                        tile_overlap,
                        root,
                    )->Ok_0,
                ),
            },
{
    if hdr.s_ver != 1 || hdr.s_hor != 1 {
        return Ok(None);
    }
    let (h, w): (usize, usize) = (rec.y.h, rec.y.w);
    let layout = enc_tile_layout(h, w, tile_samples, tile_overlap);
    if h == 0 || w == 0 || rec.y.c != 1 || org.y.c != 1 || org.y.h < h || org.y.w < w || org.u
        != org.y || org.v != org.y || rec.u != rec.y || rec.v != rec.y {
        return Err(Error::InvalidArgument("eICCI: expects 4:4:4 planes"));
    }
    let (tiling, found): (Option<SynthesisTiling>, Vec<FilterTile>) = layout?;
    if tiling.is_some() && (hdr.height as usize != h || hdr.width as usize != w) {
        return Err(Error::Unsupported("eICCI tiling on a picture with a non-displayed border"));
    }
    let (map_y, map_uv): (Vec<u8>, Vec<u8>) = candidates(short_list, op, hdr.model_id as usize)?;
    Ok(Some(SelectPlan { tiling, tiles: found, map_y, map_uv }))
}

/// The chroma planes that a gain covers.
#[derive(Clone, Copy, Debug, PartialEq, Eq, Structural)]
pub enum ChromaGain {
    Both,
    OnlyU,
    OnlyV,
}

/// A tile's choice so far: per plane the network, or none.
#[derive(Clone, Copy, Debug, PartialEq, Eq, Structural)]
pub struct TileChoice {
    pub y: Option<u8>,
    pub u: Option<u8>,
    pub v: Option<u8>,
}

/// The choice after a candidate pair: `luma` says that it improves the luma error, `chroma` which
/// planes its gain covers where that gain beats the best so far.
pub open spec fn spec_offer(c: TileChoice, net_y: u8, net_uv: u8, luma: bool, chroma: Option<ChromaGain>) -> TileChoice {
    TileChoice {
        y: if luma {
            Some(net_y)
        } else {
            c.y
        },
        u: match chroma {
            Some(ChromaGain::OnlyV) => None,
            Some(_) => Some(net_uv),
            None => c.u,
        },
        v: match chroma {
            Some(ChromaGain::OnlyU) => None,
            Some(_) => Some(net_uv),
            None => c.v,
        },
    }
}

/// The networks of a choice come from the maps, and its chroma planes share one.
pub open spec fn choice_within(c: TileChoice, map_y: Seq<u8>, map_uv: Seq<u8>) -> bool {
    &&& c.y matches Some(n) ==> map_y.contains(n)
    &&& c.u matches Some(n) ==> map_uv.contains(n)
    &&& c.v matches Some(n) ==> map_uv.contains(n)
    &&& c.u is Some && c.v is Some ==> c.u == c.v
}

/// The place of a network in a map.
pub open spec fn first_place(map: Seq<u8>, net: u8, from: int) -> Option<int>
    decreases map.len() - from,
{
    if !(0 <= from < map.len()) {
        None
    } else if map[from] == net {
        Some(from)
    } else {
        first_place(map, net, from + 1)
    }
}

/// The network that the chroma planes use.
pub open spec fn chroma_net(c: TileChoice) -> Option<u8> {
    if c.u is Some {
        c.u
    } else {
        c.v
    }
}

/// The index that stands for a network; 0 where there is none.
pub open spec fn spec_index(map: Seq<u8>, net: Option<u8>) -> Option<int> {
    match net {
        Some(n) => first_place(map, n, 0),
        None => Some(0),
    }
}

/// A signalled tile says this choice.
pub open spec fn says(t: IcciTile, c: TileChoice, map_y: Seq<u8>, map_uv: Seq<u8>, short_list: bool) -> bool {
    &&& t.use_yuv@ == seq![c.y is Some, c.u is Some, c.v is Some]
    &&& t.short_list == (short_list && (c.y is Some || c.u is Some || c.v is Some))
    &&& spec_index(map_y, c.y) == Some(t.index_y as int)
    &&& spec_index(map_uv, chroma_net(c)) == Some(t.index_uv as int)
}

impl TileChoice {
    /// Nothing chosen: every plane is kept as it is.
    pub fn none() -> (c: Self)
        ensures
            c == (TileChoice { y: None, u: None, v: None }),
    {
        TileChoice { y: None, u: None, v: None }
    }

    /// Take what a candidate pair wins.
    pub fn offer(&mut self, net_y: u8, net_uv: u8, luma: bool, chroma: Option<ChromaGain>)
        ensures
            *final(self) == spec_offer(*old(self), net_y, net_uv, luma, chroma),
    {
        if luma {
            self.y = Some(net_y);
        }
        match chroma {
            Some(g) => match g {
                ChromaGain::Both => {
                    self.u = Some(net_uv);
                    self.v = Some(net_uv);
                },
                ChromaGain::OnlyU => {
                    self.u = Some(net_uv);
                    self.v = None;
                },
                ChromaGain::OnlyV => {
                    self.u = None;
                    self.v = Some(net_uv);
                },
            },
            None => {},
        }
    }

    /// The choice as a tile signals it: each network by its place in the active map. The short
    /// list is signalled only where a plane is filtered.
    pub fn signal(&self, map_y: &Vec<u8>, map_uv: &Vec<u8>, short_list: bool) -> (r: Result<IcciTile>)
        requires
            map_y@.len() <= 256,
            map_uv@.len() <= 256,
        ensures
            if spec_index(map_y@, self.y) is Some && spec_index(map_uv@, chroma_net(*self)) is Some {
                r matches Ok(t) && says(t, *self, map_y@, map_uv@, short_list)
            } else {
                r == Err::<IcciTile, Error>(
                    Error::InvalidData("eICCI: selected model not in the map"),
                )
            },
    {
        let net_uv: Option<u8> = if self.u.is_some() { self.u } else { self.v };
        let index_y: u8 = index_of(map_y, self.y)?;
        let index_uv: u8 = index_of(map_uv, net_uv)?;
        let (y, u, v): (bool, bool, bool) = (self.y.is_some(), self.u.is_some(), self.v.is_some());
        let t = IcciTile {
            use_yuv: [y, u, v],
            short_list: short_list && (y || u || v),
            index_y,
            index_uv,
        };
        proof {
            assert(t.use_yuv@ =~= seq![y, u, v]);
        }
        Ok(t)
    }
}

/// The index that stands for a network.
fn index_of(map: &Vec<u8>, net: Option<u8>) -> (r: Result<u8>)
    requires
        map@.len() <= 256,
    ensures
        match spec_index(map@, net) {
            Some(i) => r matches Ok(v) && v == i,
            None => r == Err::<u8, Error>(
                Error::InvalidData("eICCI: selected model not in the map"),
            ),
        },
{
    let n: u8 = match net {
        Some(n) => n,
        None => {
            return Ok(0);
        },
    };
    let mut i: usize = 0;
    while i < map.len()
        invariant
            i <= map@.len(),
            map@.len() <= 256,
            net == Some(n),
            first_place(map@, n, 0) == first_place(map@, n, i as int),
        decreases map@.len() - i,
    {
        if map[i] == n {
            return Ok(i as u8);
        }
        i = i + 1;
    }
    Err(Error::InvalidData("eICCI: selected model not in the map"))
}

/// A network of a map has a place in it.
proof fn lemma_place(map: Seq<u8>, net: u8, from: int)
    requires
        0 <= from,
        exists|i: int| from <= i < map.len() && #[trigger] map[i] == net,
    ensures
        first_place(map, net, from) matches Some(i) && from <= i < map.len() && map[i] == net,
    decreases map.len() - from,
{
    if map[from] != net {
        lemma_place(map, net, from + 1);
    }
}

/// Every pair that is offered from the maps keeps the choice within them.
pub proof fn law_offers_stay_within(
    c: TileChoice,
    net_y: u8,
    net_uv: u8,
    luma: bool,
    chroma: Option<ChromaGain>,
    map_y: Seq<u8>,
    map_uv: Seq<u8>,
)
    requires
        choice_within(c, map_y, map_uv),
        map_y.contains(net_y),
        map_uv.contains(net_uv),
    ensures
        choice_within(spec_offer(c, net_y, net_uv, luma, chroma), map_y, map_uv),
{
}

/// What a decoder selects for a signalled tile is what was chosen.
pub proof fn law_choice_comes_back(c: TileChoice, t: IcciTile, op: OperatingPoint, model: int, short_list: bool)
    requires
        0 <= model < 5,
        ({
            let map_y = spec_map(LUMA_SHORT_LIST, short_list, op, model);
            let map_uv = spec_map(CHROMA_SHORT_LIST, short_list, op, model);
            choice_within(c, map_y, map_uv) && says(t, c, map_y, map_uv, short_list)
        }),
    ensures
        icci::spec_selection(t, op, model) matches Ok(s) && (match c.y {
            Some(n) => s.0 == Some(n as usize),
            None => s.0 is None,
        }) && (match chroma_net(c) {
            Some(n) => s.1 == Some(n as usize),
            None => s.1 is None,
        }),
        t.use_yuv@[0] == c.y is Some,
        t.use_yuv@[1] == c.u is Some,
        t.use_yuv@[2] == c.v is Some,
{
    let map_y = spec_map(LUMA_SHORT_LIST, short_list, op, model);
    let map_uv = spec_map(CHROMA_SHORT_LIST, short_list, op, model);
    assert(t.use_yuv@[0] == c.y is Some);
    assert(t.use_yuv@[1] == c.u is Some);
    assert(t.use_yuv@[2] == c.v is Some);
    if c.y is Some {
        let n = c.y->Some_0;
        let i = choose|i: int| 0 <= i < map_y.len() && map_y[i] == n;
        assert(map_y[i] == n);
        lemma_place(map_y, n, 0);
    }
    if chroma_net(c) is Some {
        let n = chroma_net(c)->Some_0;
        let i = choose|i: int| 0 <= i < map_uv.len() && map_uv[i] == n;
        assert(map_uv[i] == n);
        lemma_place(map_uv, n, 0);
    }
}

/// A tile that says a choice within the maps can be written.
proof fn lemma_tile_codable(c: TileChoice, t: IcciTile, op: OperatingPoint, model: int, short_list: bool)
    requires
        0 <= model < 5,
        ({
            let map_y = spec_map(LUMA_SHORT_LIST, short_list, op, model);
            let map_uv = spec_map(CHROMA_SHORT_LIST, short_list, op, model);
            choice_within(c, map_y, map_uv) && says(t, c, map_y, map_uv, short_list)
        }),
    ensures
        tools::indices_ok(t@),
        tools::icci_tile_codable(t@),
{
    let map_y = spec_map(LUMA_SHORT_LIST, short_list, op, model);
    let map_uv = spec_map(CHROMA_SHORT_LIST, short_list, op, model);
    assert(t@.y == c.y is Some);
    assert(t@.u == c.u is Some);
    assert(t@.v == c.v is Some);
    if let Some(n) = c.y {
        let i = choose|i: int| 0 <= i < map_y.len() && map_y[i] == n;
        assert(map_y[i] == n);
        lemma_place(map_y, n, 0);
    }
    if let Some(n) = chroma_net(c) {
        let i = choose|i: int| 0 <= i < map_uv.len() && map_uv[i] == n;
        assert(map_uv[i] == n);
        lemma_place(map_uv, n, 0);
    }
}

/// Whatever the search chooses from the maps, tile by tile, the header can be written and parses
/// to what was written.
pub proof fn law_selection_is_codable(
    h: IcciHeader,
    choices: Seq<TileChoice>,
    height: int,
    width: int,
    tile_samples: u32,
    tile_overlap: u32,
    root: int,
    op: OperatingPoint,
    model: int,
    short_list: bool,
)
    requires
        0 < height,
        0 < width,
        0 <= model < 5,
        tiles::is_root(root, tile_samples as int),
        spec_enc_layout(height, width, tile_samples, tile_overlap, root) matches Ok(l) && h.tiling
            == l.0 && h.tiles@.len() == l.1.len() == choices.len(),
        ({
            let map_y = spec_map(LUMA_SHORT_LIST, short_list, op, model);
            let map_uv = spec_map(CHROMA_SHORT_LIST, short_list, op, model);
            forall|i: int|
                0 <= i < choices.len() ==> choice_within(#[trigger] choices[i], map_y, map_uv)
                    && says(h.tiles@[i], choices[i], map_y, map_uv, short_list)
        }),
    ensures
        tools::icci_error(h@, height, width) is None,
        forall|i: int| 0 <= i < h@.tiles.len() ==> tools::icci_tile_codable(#[trigger] h@.tiles[i]),
{
    assert forall|i: int| 0 <= i < h@.tiles.len() implies tools::icci_tile_codable(
        #[trigger] h@.tiles[i],
    ) && tools::indices_ok(h@.tiles[i]) by {
        lemma_tile_codable(choices[i], h.tiles@[i], op, model, short_list);
    }
    if let Some(t) = h.tiling {
        assert(icci::axis_error(height, t) is None && icci::axis_error(width, t) is None);
        assert(root <= 0xffff) by (nonlinear_arith)
            requires
                0 <= root,
                root * root <= 0xffff_ffff,
        ;
        assert(t.tile_size == tiles::ceil(root, 16) * 16);
    }
}

} // verus!
