//! eICCI: a bank of small networks that enhance Y, U and V, selected per filter tile: the layout
//! of the tiles and the choice of the networks.
//!
//! Tiles are filtered in place, in raster order: a tile reads the cores its predecessors already
//! wrote inside its overlap margin.

use vstd::prelude::*;
use vstd::arithmetic::div_mod;

use crate::area::Area;
use crate::encoder::tiles;
use crate::error::{Error, Result};
use crate::header::{IcciHeader, IcciTile, OperatingPoint, PictureHeader, SynthesisTiling};
use crate::planes::PlaneSize;

verus! {

/// The last tile column / row is at least this large (taken from its neighbour). Not signalled.
pub const MINIMUM_TILE_SIZE: usize = 176;

/// `[operating point][model_id]` to the two luma networks a short-list index addresses. Not
/// signalled.
pub const LUMA_SHORT_LIST: [[[u8; 2]; 5]; 3] = [
    [[5, 6], [2, 6], [2, 7], [3, 8], [3, 4]],
    [[5, 6], [3, 6], [2, 7], [3, 8], [4, 9]],
    [[5, 6], [6, 8], [2, 7], [3, 9], [4, 9]],
];

/// The same for the two chroma networks.
pub const CHROMA_SHORT_LIST: [[[u8; 2]; 5]; 3] = [
    [[0, 1], [0, 1], [1, 2], [1, 2], [3, 4]],
    [[0, 1], [1, 2], [2, 3], [2, 3], [1, 4]],
    [[0, 2], [1, 3], [2, 3], [2, 3], [3, 4]],
];

/// One filter tile.
#[derive(Clone, Copy, Debug, PartialEq, Eq)]
pub struct FilterTile {
    /// Picture area the network sees.
    pub image: Area,
    /// Part of it that is kept, in picture coordinates.
    pub core: Area,
    /// Offset of `core` inside `image`.
    pub core_offset: (usize, usize),
}

/// The lesser of two numbers.
pub open spec fn lesser(a: int, b: int) -> int {
    if a < b {
        a
    } else {
        b
    }
}

/// Tile size along an axis.
pub open spec fn tile_len(len: int, t: SynthesisTiling) -> int {
    lesser(t.tile_size as int, len)
}

/// Tiles along an axis.
pub open spec fn span_count(len: int, t: SynthesisTiling) -> int {
    tiles::ceil(len - t.overlap, tile_len(len, t) - t.overlap)
}

/// Start and length of a tile along an axis, before the last one is adjusted.
pub open spec fn raw_span(len: int, t: SynthesisTiling, i: int) -> (int, int) {
    let p = i * (tile_len(len, t) - t.overlap);
    (p, lesser(tile_len(len, t), len - p))
}

/// The last tile is too short and takes from its neighbour.
pub open spec fn last_is_short(len: int, t: SynthesisTiling) -> bool {
    raw_span(len, t, span_count(len, t) - 1).1 < 176
}

/// Start and length of a tile along an axis.
pub open spec fn spec_span(len: int, t: SynthesisTiling, i: int) -> (int, int) {
    let n = span_count(len, t);
    let (p, l) = raw_span(len, t, i);
    if last_is_short(len, t) && i == n - 1 {
        (p - 176, l + 176)
    } else if last_is_short(len, t) && i == n - 2 {
        (p, l - 176)
    } else {
        (p, l)
    }
}

/// Why an axis cannot be tiled.
pub open spec fn axis_error(len: int, t: SynthesisTiling) -> Option<Error> {
    let n = span_count(len, t);
    if tile_len(len, t) <= t.overlap || len <= t.overlap {
        Some(Error::InvalidData("eICCI: tile not larger than its overlap"))
    } else if last_is_short(len, t) && (n < 2 || raw_span(len, t, n - 2).1 <= 176 + t.overlap) {
        Some(Error::InvalidData("eICCI: tiling leaves a tile below the minimum size"))
    } else {
        None
    }
}

/// The tiles of an axis.
pub open spec fn spec_axis(len: int, t: SynthesisTiling) -> Seq<(int, int)> {
    Seq::new(span_count(len, t) as nat, |i: int| spec_span(len, t, i))
}

/// Spans as values.
pub open spec fn spans(v: Seq<(usize, usize)>) -> Seq<(int, int)> {
    Seq::new(v.len(), |i: int| (v[i].0 as int, v[i].1 as int))
}

/// There is a tile.
proof fn lemma_span_count(len: int, t: SynthesisTiling)
    requires
        t.overlap < tile_len(len, t),
        t.overlap < len,
    ensures
        1 <= span_count(len, t),
{
    let step = tile_len(len, t) - t.overlap;
    let a = len - t.overlap + step - 1;
    div_mod::lemma_fundamental_div_mod(a, step);
    div_mod::lemma_mod_bound(a, step);
    assert(a / step >= 1) by (nonlinear_arith)
        requires
            a == step * (a / step) + a % step,
            a >= step,
            0 <= a % step < step,
            step >= 1,
    ;
}

/// Where the tiles of an axis lie: each within it, every one but the last ending before it ends.
pub proof fn lemma_raw_span(len: int, t: SynthesisTiling, i: int)
    requires
        t.overlap < tile_len(len, t),
        t.overlap < len,
        0 <= i < span_count(len, t),
    ensures
        1 <= span_count(len, t),
        0 <= raw_span(len, t, i).0 < len - t.overlap,
        raw_span(len, t, i).1 > t.overlap,
        i == span_count(len, t) - 1 ==> raw_span(len, t, i).0 + raw_span(len, t, i).1 == len,
        i < span_count(len, t) - 1 ==> raw_span(len, t, i).1 == tile_len(len, t) && raw_span(
            len,
            t,
            i,
        ).0 + raw_span(len, t, i).1 < len,
        raw_span(len, t, i + 1).0 == raw_span(len, t, i).0 + tile_len(len, t) - t.overlap,
{
    let step = tile_len(len, t) - t.overlap;
    let total = len - t.overlap;
    let n = span_count(len, t);
    let a = total + step - 1;
    div_mod::lemma_fundamental_div_mod(a, step);
    div_mod::lemma_mod_bound(a, step);
    let r = a % step;
    lemma_span_count(len, t);
    assert(i * step + step == (i + 1) * step) by (nonlinear_arith);
    assert(0 <= i * step) by (nonlinear_arith)
        requires
            0 <= i,
            step >= 1,
    ;
    assert(step * n == (n - 1) * step + step) by (nonlinear_arith);
    assert(i * step <= (n - 1) * step) by (nonlinear_arith)
        requires
            i <= n - 1,
            step >= 1,
    ;
    if i < n - 1 {
        assert((i + 1) * step <= (n - 1) * step) by (nonlinear_arith)
            requires
                i + 1 <= n - 1,
                step >= 1,
        ;
    }
}

/// Tile starts and lengths along one axis.
fn axis(len: usize, t: SynthesisTiling) -> (r: Result<Vec<(usize, usize)>>)
    ensures
        match axis_error(len as int, t) {
            Some(e) => r == Err::<Vec<(usize, usize)>, Error>(e),
            None => r matches Ok(v) && spans(v@) == spec_axis(len as int, t) && v@.len() >= 1
                && forall|i: int|
                0 <= i < v@.len() ==> (#[trigger] v@[i]).0 + v@[i].1 <= len,
        },
{
    let overlap: usize = t.overlap as usize;
    let tile: usize = if (t.tile_size as usize) < len { t.tile_size as usize } else { len };
    if tile <= overlap || len <= overlap {
        return Err(Error::InvalidData("eICCI: tile not larger than its overlap"));
    }
    let step: usize = tile - overlap;
    let n: usize = tiles::div_up(len - overlap, step);
    let ghost count = span_count(len as int, t);
    let mut v: Vec<(usize, usize)> = Vec::new();
    proof {
        lemma_span_count(len as int, t);
    }
    while v.len() < n
        invariant
            v@.len() <= n,
            n == count,
            count == span_count(len as int, t),
            overlap == t.overlap,
            tile == tile_len(len as int, t),
            overlap < tile,
            overlap < len,
            step == tile - overlap,
            forall|i: int|
                0 <= i < v@.len() ==> ((#[trigger] v@[i]).0 as int, v@[i].1 as int) == raw_span(
                    len as int,
                    t,
                    i,
                ),
        decreases n - v@.len(),
    {
        let i: usize = v.len();
        proof {
            lemma_raw_span(len as int, t, i as int);
        }
        let p: usize = i * step;
        let l: usize = if tile < len - p { tile } else { len - p };
        v.push((p, l));
    }
    proof {
        lemma_raw_span(len as int, t, count - 1);
    }
    let (p1, l1): (usize, usize) = v[n - 1];
    if l1 < MINIMUM_TILE_SIZE {
        if n < 2 {
            return Err(Error::InvalidData("eICCI: tiling leaves a tile below the minimum size"));
        }
        let (p2, l2): (usize, usize) = v[n - 2];
        if l2 <= MINIMUM_TILE_SIZE || l2 - MINIMUM_TILE_SIZE <= overlap {
            return Err(Error::InvalidData("eICCI: tiling leaves a tile below the minimum size"));
        }
        proof {
            lemma_raw_span(len as int, t, count - 2);
        }
        let ghost before = v@;
        v.set(n - 2, (p2, l2 - MINIMUM_TILE_SIZE));
        v.set(n - 1, (p1 - MINIMUM_TILE_SIZE, l1 + MINIMUM_TILE_SIZE));
        proof {
            assert forall|i: int| 0 <= i < v@.len() implies (#[trigger] v@[i]).0 + v@[i].1 <= len by {
                lemma_raw_span(len as int, t, i);
                assert(before[i].0 + before[i].1 <= len);
            }
        }
    } else {
        proof {
            assert forall|i: int| 0 <= i < v@.len() implies (#[trigger] v@[i]).0 + v@[i].1 <= len by {
                lemma_raw_span(len as int, t, i);
            }
        }
    }
    proof {
        assert(spans(v@) =~= spec_axis(len as int, t));
    }
    Ok(v)
}

/// What is kept of a span: its start, its length, and the offset of the start.
pub open spec fn core_of(span: (int, int), len: int, half: int) -> (int, int, int) {
    let before = if span.0 == 0 {
        0
    } else {
        half
    };
    let after = if span.0 + span.1 >= len {
        0
    } else {
        half
    };
    (span.0 + before, span.1 - before - after, before)
}

/// Every tile of an axis keeps something.
pub open spec fn all_kept(axis: Seq<(int, int)>, len: int, half: int) -> bool {
    forall|i: int| 0 <= i < axis.len() ==> core_of(#[trigger] axis[i], len, half).1 > 0
}

/// The tile of a row and a column.
pub open spec fn tile_of(row: (int, int), col: (int, int), height: int, width: int, half: int) -> FilterTile {
    let (y, h, oy) = core_of(row, height, half);
    let (x, w, ox) = core_of(col, width, half);
    FilterTile {
        image: Area {
            x: col.0 as usize,
            y: row.0 as usize,
            width: col.1 as usize,
            height: row.1 as usize,
        },
        core: Area { x: x as usize, y: y as usize, width: w as usize, height: h as usize },
        core_offset: (ox as usize, oy as usize),
    }
}

/// The tiles of a picture, raster order, or why there is no such layout.
pub open spec fn spec_layout(height: int, width: int, tiling: Option<SynthesisTiling>) -> core::result::Result<
    Seq<FilterTile>,
    Error,
> {
    match tiling {
        None => Ok(seq![tile_of((0, height), (0, width), height, width, 0)]),
        Some(t) => {
            let half = t.overlap as int / 2;
            let (rows, cols) = (spec_axis(height, t), spec_axis(width, t));
            if axis_error(height, t) is Some {
                Err(axis_error(height, t)->Some_0)
            } else if axis_error(width, t) is Some {
                Err(axis_error(width, t)->Some_0)
            } else if !all_kept(rows, height, half) || !all_kept(cols, width, half) {
                Err(Error::InvalidData("eICCI: tile is all overlap"))
            } else {
                Ok(
                    Seq::new(
                        rows.len() * cols.len(),
                        |k: int|
                            tile_of(
                                rows[k / cols.len() as int],
                                cols[k % cols.len() as int],
                                height,
                                width,
                                half,
                            ),
                    ),
                )
            }
        },
    }
}

/// What is kept of a span, or nothing where it is all overlap.
fn keep(start: usize, l: usize, len: usize, half: usize) -> (r: Option<(usize, usize, usize)>)
    requires
        start + l <= len,
        half <= u32::MAX,
    ensures
        ({
            let c = core_of((start as int, l as int), len as int, half as int);
            match r {
                Some(v) => c.1 > 0 && (v.0 as int, v.1 as int, v.2 as int) == c,
                None => c.1 <= 0,
            }
        }),
{
    let before: usize = if start == 0 { 0 } else { half };
    let after: usize = if start + l >= len { 0 } else { half };
    if l <= before || l - before <= after {
        return None;
    }
    Some((start + before, l - before - after, before))
}

/// Filter tiles of a `height x width` picture, raster order. `None` = one tile.
pub fn tile_layout(height: usize, width: usize, tiling: Option<SynthesisTiling>) -> (r: Result<
    Vec<FilterTile>,
>)
    ensures
        match spec_layout(height as int, width as int, tiling) {
            Ok(s) => r matches Ok(v) && v@ == s,
            Err(e) => r == Err::<Vec<FilterTile>, Error>(e),
        },
{
    let t: SynthesisTiling = match tiling {
        Some(t) => t,
        None => {
            let image = Area::new(0, 0, width, height);
            let mut v: Vec<FilterTile> = Vec::new();
            v.push(FilterTile { image, core: image, core_offset: (0, 0) });
            proof {
                assert(v@ =~= spec_layout(height as int, width as int, tiling)->Ok_0);
            }
            return Ok(v);
        },
    };
    let half: usize = t.overlap as usize / 2;
    let rows: Vec<(usize, usize)> = axis(height, t)?;
    let cols: Vec<(usize, usize)> = axis(width, t)?;
    let ghost (sr, sc) = (spec_axis(height as int, t), spec_axis(width as int, t));
    let ghost nc = cols@.len() as int;
    let mut out: Vec<FilterTile> = Vec::new();
    let mut i: usize = 0;
    proof {
        assert(0 * nc == 0);
    }
    while i < rows.len()
        invariant
            i <= rows@.len(),
            half == t.overlap / 2,
            sr == spec_axis(height as int, t),
            sc == spec_axis(width as int, t),
            spans(rows@) == sr,
            spans(cols@) == sc,
            nc == cols@.len(),
            nc >= 1,
            tiling == Some(t),
            axis_error(height as int, t) is None,
            axis_error(width as int, t) is None,
            forall|a: int| 0 <= a < rows@.len() ==> (#[trigger] rows@[a]).0 + rows@[a].1 <= height,
            forall|a: int| 0 <= a < cols@.len() ==> (#[trigger] cols@[a]).0 + cols@[a].1 <= width,
            out@.len() == i * nc,
            forall|k: int|
                0 <= k < out@.len() ==> #[trigger] out@[k] == tile_of(
                    sr[k / nc],
                    sc[k % nc],
                    height as int,
                    width as int,
                    half as int,
                ),
            forall|a: int| 0 <= a < i ==> core_of(#[trigger] sr[a], height as int, half as int).1 > 0,
            i > 0 ==> all_kept(sc, width as int, half as int),
        decreases rows@.len() - i,
    {
        let (y, h): (usize, usize) = rows[i];
        let mut j: usize = 0;
        proof {
            assert(spans(rows@)[i as int] == (y as int, h as int));
        }
        while j < cols.len()
            invariant
                i < rows@.len(),
                j <= cols@.len(),
                half == t.overlap / 2,
                sr == spec_axis(height as int, t),
                sc == spec_axis(width as int, t),
                spans(rows@) == sr,
                spans(cols@) == sc,
                (y, h) == rows@[i as int],
                sr[i as int] == (y as int, h as int),
                nc == cols@.len(),
                nc >= 1,
                tiling == Some(t),
                axis_error(height as int, t) is None,
                axis_error(width as int, t) is None,
                forall|a: int|
                    0 <= a < rows@.len() ==> (#[trigger] rows@[a]).0 + rows@[a].1 <= height,
                forall|a: int|
                    0 <= a < cols@.len() ==> (#[trigger] cols@[a]).0 + cols@[a].1 <= width,
                out@.len() == i * nc + j,
                forall|k: int|
                    0 <= k < out@.len() ==> #[trigger] out@[k] == tile_of(
                        sr[k / nc],
                        sc[k % nc],
                        height as int,
                        width as int,
                        half as int,
                    ),
                forall|a: int|
                    0 <= a < j ==> core_of(#[trigger] sc[a], width as int, half as int).1 > 0,
                j > 0 ==> core_of(sr[i as int], height as int, half as int).1 > 0,
            decreases cols@.len() - j,
        {
            let (x, w): (usize, usize) = cols[j];
            proof {
                assert(spans(cols@)[j as int] == (x as int, w as int));
                assert(sr.len() == rows@.len() && sc.len() == cols@.len());
                assert(core_of(sc[j as int], width as int, half as int) == core_of(
                    (x as int, w as int),
                    width as int,
                    half as int,
                ));
            }
            let (cx, cw, ox): (usize, usize, usize) = match keep(x, w, width, half) {
                Some(c) => c,
                None => {
                    return Err(Error::InvalidData("eICCI: tile is all overlap"));
                },
            };
            let (cy, ch, oy): (usize, usize, usize) = match keep(y, h, height, half) {
                Some(c) => c,
                None => {
                    return Err(Error::InvalidData("eICCI: tile is all overlap"));
                },
            };
            proof {
                let k = i * nc + j;
                assert(k == i * nc + j && 0 <= i * nc) by (nonlinear_arith)
                    requires
                        k == i * nc + j,
                        i >= 0,
                        nc >= 1,
                ;
                div_mod::lemma_fundamental_div_mod_converse(k, nc, i as int, j as int);
            }
            out.push(
                FilterTile {
                    image: Area::new(x, y, w, h),
                    core: Area::new(cx, cy, cw, ch),
                    core_offset: (ox, oy),
                },
            );
            j = j + 1;
        }
        proof {
            assert((i + 1) * nc == i * nc + nc) by (nonlinear_arith);
        }
        i = i + 1;
    }
    proof {
        assert(sr.len() == rows@.len());
        assert(out@ =~= spec_layout(height as int, width as int, tiling)->Ok_0);
    }
    Ok(out)
}

/// The cores of the tiles follow each other without a gap from one end of the axis to the other,
/// where the overlap is even.
pub proof fn law_filter_cores_tile_axis(len: int, t: SynthesisTiling, i: int)
    requires
        axis_error(len, t) is None,
        t.overlap as int % 2 == 0,
        0 <= i < span_count(len, t),
    ensures
        ({
            let half = t.overlap as int / 2;
            let n = span_count(len, t);
            let here = core_of(spec_span(len, t, i), len, half);
            let next = core_of(spec_span(len, t, i + 1), len, half);
            &&& core_of(spec_span(len, t, 0), len, half).0 == 0
            &&& i < n - 1 ==> here.0 + here.1 == next.0
            &&& i == n - 1 ==> here.0 + here.1 == len
        }),
{
    let n = span_count(len, t);
    let step = tile_len(len, t) - t.overlap;
    assert(0 * step == 0);
    lemma_raw_span(len, t, 0);
    lemma_raw_span(len, t, i);
    lemma_raw_span(len, t, n - 1);
    if i < n - 1 {
        lemma_raw_span(len, t, i + 1);
        assert(step <= (i + 1) * step) by (nonlinear_arith)
            requires
                0 <= i,
                step >= 1,
        ;
    }
    if n >= 2 {
        lemma_raw_span(len, t, n - 2);
    }
}

/// An entry of a short list.
pub open spec fn short_entry(list: [[[u8; 2]; 5]; 3], op: OperatingPoint, model: int, index: int) -> u8 {
    list@[op.spec_id() as int]@[model]@[index]
}

/// The network that a signalled index means: the index itself, or the short list's entry.
pub open spec fn spec_pick(
    list: [[[u8; 2]; 5]; 3],
    short_list: bool,
    op: OperatingPoint,
    model: int,
    index: u8,
) -> Option<usize> {
    if !short_list {
        Some(index as usize)
    } else if model < 5 && index < 2 {
        Some(short_entry(list, op, model, index as int) as usize)
    } else {
        None
    }
}

/// Networks filtering Y and U/V of one tile; `None` = plane kept.
pub open spec fn spec_selection(t: IcciTile, op: OperatingPoint, model: int) -> core::result::Result<
    (Option<usize>, Option<usize>),
    Error,
> {
    let y = spec_pick(LUMA_SHORT_LIST, t.short_list, op, model, t.index_y);
    let uv = spec_pick(CHROMA_SHORT_LIST, t.short_list, op, model, t.index_uv);
    let (use_y, use_uv) = (t.use_yuv@[0], t.use_yuv@[1] || t.use_yuv@[2]);
    if (use_y && y is None) || (use_uv && uv is None) {
        Err(Error::InvalidData("eICCI: short-list index out of range"))
    } else {
        Ok(
            (
                if use_y {
                    y
                } else {
                    None
                },
                if use_uv {
                    uv
                } else {
                    None
                },
            ),
        )
    }
}

/// The number of an operating point.
fn row_of(op: OperatingPoint) -> (i: usize)
    ensures
        i == op.spec_id(),
        i < 3,
{
    match op {
        OperatingPoint::Sop => 0,
        OperatingPoint::Bop => 1,
        OperatingPoint::Hop => 2,
    }
}

/// The network that a signalled index means.
fn pick(list: &[[[u8; 2]; 5]; 3], short_list: bool, op: OperatingPoint, model: usize, index: u8) -> (n: Option<usize>)
    ensures
        n == spec_pick(*list, short_list, op, model as int, index),
{
    if !short_list {
        return Some(index as usize);
    }
    if model < 5 && index < 2 {
        Some(list[row_of(op)][model][index as usize] as usize)
    } else {
        None
    }
}

/// Networks (index into the bank of ten) filtering Y and U/V of one tile; `None` = plane kept.
pub fn selection(t: &IcciTile, op: OperatingPoint, model_id: usize) -> (r: Result<
    (Option<usize>, Option<usize>),
>)
    ensures
        r == spec_selection(*t, op, model_id as int),
{
    let y: Option<usize> = if t.use_yuv[0] {
        match pick(&LUMA_SHORT_LIST, t.short_list, op, model_id, t.index_y) {
            Some(n) => Some(n),
            None => {
                return Err(Error::InvalidData("eICCI: short-list index out of range"));
            },
        }
    } else {
        None
    };
    let uv: Option<usize> = if t.use_yuv[1] || t.use_yuv[2] {
        match pick(&CHROMA_SHORT_LIST, t.short_list, op, model_id, t.index_uv) {
            Some(n) => Some(n),
            None => {
                return Err(Error::InvalidData("eICCI: short-list index out of range"));
            },
        }
    } else {
        None
    };
    Ok((y, uv))
}

/// What the filter does to a picture: its tiles, and the size that the chroma planes have outside
/// of it where they are resampled for it.
#[derive(Debug)]
pub struct FilterPlan {
    pub tiles: Vec<FilterTile>,
    pub chroma: Option<(usize, usize)>,
}

/// The size of a plane, where there is one of it.
pub open spec fn is_plane(p: PlaneSize, h: int, w: int) -> bool {
    p.c == 1 && p.h == h && p.w == w
}

/// The chroma size of a subsampled source.
pub open spec fn spec_chroma(s: (u8, u8), h: int, w: int) -> Option<Option<(int, int)>> {
    if s == (1u8, 1u8) {
        Some(None)
    } else if s == (2u8, 2u8) {
        Some(Some((tiles::ceil(h, 2), tiles::ceil(w, 2))))
    } else if s == (1u8, 2u8) {
        Some(Some((h, tiles::ceil(w, 2))))
    } else {
        None
    }
}

/// Why a picture cannot be filtered.
pub open spec fn plan_error(hdr: PictureHeader, h: IcciHeader, y: PlaneSize, u: PlaneSize, v: PlaneSize) -> Option<Error> {
    let chroma = spec_chroma((hdr.s_ver, hdr.s_hor), y.h as int, y.w as int);
    let (ch, cw) = match chroma {
        Some(Some(c)) => c,
        _ => (y.h as int, y.w as int),
    };
    let layout = spec_layout(y.h as int, y.w as int, h.tiling);
    if y.c != 1 || y.h == 0 || y.w == 0 {
        Some(Error::InvalidArgument("eICCI: empty picture"))
    } else if chroma is None {
        Some(
            Error::Unsupported("eICCI post-filter on a chroma format other than 4:2:0 / 4:2:2"),
        )
    } else if !is_plane(u, ch, cw) || !is_plane(v, ch, cw) {
        Some(Error::InvalidData("eICCI: chroma planes do not match the source subsampling"))
    } else if hdr.bit_depth < 1 || hdr.bit_depth > 16 {
        Some(Error::InvalidArgument("eICCI: bit depth"))
    } else if h.tiling is Some && (y.h != hdr.height || y.w != hdr.width) {
        Some(Error::Unsupported("eICCI tiling on a picture with a non-displayed border"))
    } else if layout is Err {
        Some(layout->Err_0)
    } else if layout->Ok_0.len() != h.tiles@.len() {
        Some(Error::InvalidData("eICCI: tile count does not match the tiling"))
    } else {
        None
    }
}

/// What the filter does to a picture with planes of these sizes.
pub fn filter_plan(hdr: &PictureHeader, h: &IcciHeader, y: PlaneSize, u: PlaneSize, v: PlaneSize) -> (r:
    Result<FilterPlan>)
    ensures
        match plan_error(*hdr, *h, y, u, v) {
            Some(e) => r == Err::<FilterPlan, Error>(e),
            None => r matches Ok(p) && spec_layout(y.h as int, y.w as int, h.tiling) == Ok::<
                Seq<FilterTile>,
                Error,
            >(p.tiles@) && p.tiles@.len() == h.tiles@.len() && match p.chroma {
                None => spec_chroma((hdr.s_ver, hdr.s_hor), y.h as int, y.w as int) == Some(
                    None::<(int, int)>,
                ),
                Some((ch, cw)) => spec_chroma((hdr.s_ver, hdr.s_hor), y.h as int, y.w as int)
                    == Some(Some((ch as int, cw as int))),
            },
        },
{
    if y.c != 1 || y.h == 0 || y.w == 0 {
        return Err(Error::InvalidArgument("eICCI: empty picture"));
    }
    let chroma: Option<(usize, usize)> = if hdr.s_ver == 1 && hdr.s_hor == 1 {
        None
    } else if hdr.s_ver == 2 && hdr.s_hor == 2 {
        Some((tiles::div_up(y.h, 2), tiles::div_up(y.w, 2)))
    } else if hdr.s_ver == 1 && hdr.s_hor == 2 {
        Some((y.h, tiles::div_up(y.w, 2)))
    } else {
        return Err(
            Error::Unsupported("eICCI post-filter on a chroma format other than 4:2:0 / 4:2:2"),
        );
    };
    let (ch, cw): (usize, usize) = match chroma {
        Some(c) => c,
        None => (y.h, y.w),
    };
    if u.c != 1 || v.c != 1 || u.h != ch || u.w != cw || v.h != ch || v.w != cw {
        return Err(Error::InvalidData("eICCI: chroma planes do not match the source subsampling"));
    }
    if hdr.bit_depth < 1 || hdr.bit_depth > 16 {
        return Err(Error::InvalidArgument("eICCI: bit depth"));
    }
    if h.tiling.is_some() && (y.h != hdr.height as usize || y.w != hdr.width as usize) {
        return Err(Error::Unsupported("eICCI tiling on a picture with a non-displayed border"));
    }
    let layout: Vec<FilterTile> = tile_layout(y.h, y.w, h.tiling)?;
    if layout.len() != h.tiles.len() {
        return Err(Error::InvalidData("eICCI: tile count does not match the tiling"));
    }
    Ok(FilterPlan { tiles: layout, chroma })
}

} // verus!
