//! Tool header (TON): latent scaling flags and the parameters of the enhancement post-filters.
//!
//! ```text
//! lsbs[0] | lsbs[1] | EFE linear | eICCI | EFE non-linear | LEF
//! ```

use vstd::prelude::*;
use vstd::arithmetic::power2;

use crate::bitio;
use crate::bitio::{BitReader, BitWriter};
use crate::bits;
use crate::error::{Error, Result};
use crate::header::picture;
use crate::header::picture::{PictureHeader, SynthesisTiling};

verus! {

/// Region splits of the EFE linear filter: number of sub-filters per candidate index.
pub const EFE_LINEAR_SPLITS: [usize; 8] = [1, 2, 2, 3, 3, 4, 6, 6];

/// Number of sub-filters of a candidate.
pub open spec fn splits_of(cand: u8) -> nat {
    if cand == 0 {
        1
    } else if cand <= 2 {
        2
    } else if cand <= 4 {
        3
    } else if cand == 5 {
        4
    } else {
        6
    }
}

/// `n` symbols of `width` bits each, from a position on.
pub open spec fn symbols(s: Seq<bool>, pos: int, n: nat, width: nat) -> Seq<u32> {
    Seq::new(n, |i: int| bitio::field(s, pos + i * width, width))
}

/// What [`read_symbols`] reads: `n` symbols up to `max_symbol`.
pub open spec fn spec_symbols(s: Seq<bool>, pos: int, n: nat, max_symbol: nat) -> bitio::Parsed<
    Seq<u32>,
> {
    let width = bitio::bit_width(max_symbol);
    if pos + n * width > s.len() {
        Err(Error::UnexpectedEof)
    } else {
        Ok((symbols(s, pos, n, width), pos + n * width))
    }
}

/// Whether `n` symbols of `width` bits fit into `left` bits.
fn fits(n: usize, width: u32, left: usize) -> (b: bool)
    ensures
        b == (n * width <= left),
{
    if width == 0 {
        proof {
            assert(n * width == 0) by (nonlinear_arith)
                requires
                    width == 0,
            ;
        }
        true
    } else {
        proof {
            let (x, y, z) = (n as int, width as int, left as int);
            vstd::arithmetic::div_mod::lemma_fundamental_div_mod(z, y);
            if x <= z / y {
                assert(x * y <= y * (z / y)) by (nonlinear_arith)
                    requires
                        x <= z / y,
                        y > 0,
                ;
            } else {
                assert(x * y >= y * (z / y) + y) by (nonlinear_arith)
                    requires
                        x >= z / y + 1,
                        y > 0,
                ;
            }
        }
        n <= left / width as usize
    }
}

/// Read `n` symbols up to `max_symbol`; a count that the payload cannot hold is refused at once.
fn read_symbols(r: &mut BitReader<'_>, n: usize, max_symbol: u32) -> (v: Result<Vec<u32>>)
    requires
        old(r).wf(),
    ensures
        final(r).follows(old(r)),
        match spec_symbols(old(r).bits(), old(r).pos(), n as nat, max_symbol as nat) {
            Ok((f, p)) => v matches Ok(x) && x@ == f && final(r).pos() == p,
            Err(e) => v == Err::<Vec<u32>, Error>(e),
        },
{
    let ghost s = r.bits();
    let ghost pos = r.pos();
    let width: u32 = bitio::bits_for_max(max_symbol);
    if !fits(n, width, r.bits_left()) {
        return Err(Error::UnexpectedEof);
    }
    let mut out: Vec<u32> = Vec::new();
    let mut i: usize = 0;
    while i < n
        invariant
            i <= n,
            width <= 32,
            r.follows(old(r)),
            s == old(r).bits(),
            s == r.bits(),
            pos == old(r).pos(),
            0 <= pos,
            pos + n * width <= s.len(),
            r.pos() == pos + i * width,
            out@.len() == i,
            forall|j: int|
                0 <= j < i ==> #[trigger] out@[j] == bitio::field(
                    s,
                    pos + j * width as nat,
                    width as nat,
                ),
        decreases n - i,
    {
        proof {
            let (a, b, w) = (i as int, n as int, width as int);
            assert((a + 1) * w == a * w + w) by (nonlinear_arith);
            assert((a + 1) * w <= b * w) by (nonlinear_arith)
                requires
                    a + 1 <= b,
                    w >= 0,
            ;
        }
        let x: u32 = match r.read_bits(width) {
            Ok(x) => x,
            Err(e) => return Err(e),
        };
        out.push(x);
        i = i + 1;
    }
    proof {
        assert(out@ =~= symbols(s, pos, n as nat, width as nat));
    }
    Ok(out)
}

/// The bits of symbols of `width` bits each.
pub open spec fn symbols_code(v: Seq<u32>, width: nat) -> Seq<bool>
    decreases v.len(),
{
    if v.len() == 0 {
        Seq::empty()
    } else {
        symbols_code(v.drop_last(), width) + bits::low_bits(v.last() as nat, width)
    }
}

/// Append symbols of `width` bits each.
fn write_symbols(w: &mut BitWriter, v: &Vec<u32>, width: u32)
    requires
        old(w).wf(),
        width <= 32,
    ensures
        final(w).wf(),
        final(w).bits() == old(w).bits() + symbols_code(v@, width as nat),
{
    let mut i: usize = 0;
    proof {
        assert(symbols_code(v@.take(0), width as nat) =~= Seq::empty());
        assert(w.bits() =~= old(w).bits() + symbols_code(v@.take(0), width as nat));
    }
    while i < v.len()
        invariant
            i <= v@.len(),
            width <= 32,
            w.wf(),
            w.bits() == old(w).bits() + symbols_code(v@.take(i as int), width as nat),
        decreases v@.len() - i,
    {
        w.write_bits(v[i], width);
        proof {
            assert(v@.take(i + 1).drop_last() =~= v@.take(i as int));
            assert(w.bits() =~= old(w).bits() + symbols_code(v@.take(i + 1), width as nat));
        }
        i = i + 1;
    }
    proof {
        assert(v@.take(i as int) =~= v@);
    }
}

proof fn lemma_symbols_len(v: Seq<u32>, width: nat)
    ensures
        symbols_code(v, width).len() == v.len() * width,
    decreases v.len(),
{
    if v.len() > 0 {
        lemma_symbols_len(v.drop_last(), width);
        let n = v.len() as int;
        let k = width as int;
        assert((n - 1) * k + k == n * k) by (nonlinear_arith);
    } else {
        assert(0 * width == 0);
    }
}

/// Where the codes of symbols stand, the fields are the symbols.
proof fn lemma_symbols_at(s: Seq<bool>, pos: int, v: Seq<u32>, width: nat, i: int)
    requires
        width <= 32,
        0 <= i < v.len(),
        bits::has_at(s, pos, symbols_code(v, width)),
        forall|j: int| 0 <= j < v.len() ==> (#[trigger] v[j] as nat) < power2::pow2(width),
    ensures
        bitio::field(s, pos + i * width, width) == v[i],
    decreases v.len(),
{
    let init = v.drop_last();
    bits::lemma_has_at_concat(
        s,
        pos,
        symbols_code(init, width),
        bits::low_bits(v.last() as nat, width),
    );
    lemma_symbols_len(init, width);
    if i == v.len() - 1 {
        bitio::lemma_field(s, pos + init.len() * width, v[i] as nat, width);
    } else {
        assert forall|j: int| 0 <= j < init.len() implies (#[trigger] init[j] as nat)
            < power2::pow2(width) by {
            assert((v[j] as nat) < power2::pow2(width));
        }
        lemma_symbols_at(s, pos, init, width, i);
    }
}

/// Symbols that were written read back.
proof fn lemma_read_symbols(s: Seq<bool>, pos: int, v: Seq<u32>, max_symbol: nat)
    requires
        max_symbol <= u32::MAX,
        forall|j: int| 0 <= j < v.len() ==> #[trigger] v[j] <= max_symbol,
        bits::has_at(s, pos, symbols_code(v, bitio::bit_width(max_symbol))),
    ensures
        spec_symbols(s, pos, v.len(), max_symbol) == Ok::<(Seq<u32>, int), Error>(
            (v, pos + symbols_code(v, bitio::bit_width(max_symbol)).len()),
        ),
{
    let width = bitio::bit_width(max_symbol);
    bitio::lemma_bit_width(max_symbol);
    bitio::lemma_width_u32(max_symbol);
    lemma_symbols_len(v, width);
    assert forall|j: int| 0 <= j < v.len() implies (#[trigger] v[j] as nat) < power2::pow2(width) by {
        assert(v[j] <= max_symbol);
    }
    assert forall|i: int| 0 <= i < v.len() implies symbols(s, pos, v.len(), width)[i] == v[i] by {
        lemma_symbols_at(s, pos, v, width, i);
    }
    assert(symbols(s, pos, v.len(), width) =~= v);
}

/// One coded set of EFE linear filters: the filters of both chroma planes.
#[derive(Clone, Debug, PartialEq, Eq)]
pub struct EfeLinearSet {
    /// Index into [`EFE_LINEAR_SPLITS`] per chroma plane, `None` = plane not filtered.
    pub cand: [Option<u8>; 2],
    /// Filter side length per plane (meaningful when `cand` is set).
    pub filter_len: [u8; 2],
    /// Offset of the coded weight symbols.
    pub min_symbol: u16,
    /// Range of the coded weight symbols.
    pub max_symbol: u16,
    /// Per plane, per split: chroma weights as 16-bit integer codes. `4 * fL * fL` values (the
    /// four sub-sampling phases), or `fL * fL` when the picture is coded 4:4:4 (one filter
    /// shared by all phases).
    pub chroma_weights: [Vec<Vec<u32>>; 2],
    /// Per plane, per split: luma-aid weights, `fL * fL` integer codes.
    pub luma_weights: [Vec<Vec<u32>>; 2],
}

/// The filters of one plane as a value.
pub struct EfePlaneView {
    pub cand: Option<u8>,
    pub filter_len: u8,
    pub chroma_weights: Seq<Seq<u32>>,
    pub luma_weights: Seq<Seq<u32>>,
}

/// A set of filters as a value.
pub struct EfeSetView {
    pub first: EfePlaneView,
    pub second: EfePlaneView,
    pub min_symbol: u16,
    pub max_symbol: u16,
}

/// Lists of weights as values.
pub open spec fn lists(v: Seq<Vec<u32>>) -> Seq<Seq<u32>> {
    Seq::new(v.len(), |i: int| v[i]@)
}

impl EfeLinearSet {
    /// The filters of plane `p` as a value.
    pub open spec fn plane(&self, p: int) -> EfePlaneView {
        EfePlaneView {
            cand: self.cand@[p],
            filter_len: self.filter_len@[p],
            chroma_weights: lists(self.chroma_weights@[p]@),
            luma_weights: lists(self.luma_weights@[p]@),
        }
    }
}

impl View for EfeLinearSet {
    type V = EfeSetView;

    open spec fn view(&self) -> EfeSetView {
        EfeSetView {
            first: self.plane(0),
            second: self.plane(1),
            min_symbol: self.min_symbol,
            max_symbol: self.max_symbol,
        }
    }
}

/// A plane that is not filtered.
pub open spec fn no_filters() -> EfePlaneView {
    EfePlaneView {
        cand: None,
        filter_len: 0,
        chroma_weights: Seq::empty(),
        luma_weights: Seq::empty(),
    }
}

/// A set in which neither plane is filtered.
pub open spec fn empty_set() -> EfeSetView {
    EfeSetView { first: no_filters(), second: no_filters(), min_symbol: 0, max_symbol: 0 }
}

impl Default for EfeLinearSet {
    fn default() -> (set: Self)
        ensures
            set@ == empty_set(),
    {
        let set = EfeLinearSet {
            cand: [None, None],
            filter_len: [0, 0],
            min_symbol: 0,
            max_symbol: 0,
            chroma_weights: [Vec::new(), Vec::new()],
            luma_weights: [Vec::new(), Vec::new()],
        };
        proof {
            assert(set.plane(0).chroma_weights =~= Seq::empty());
            assert(set.plane(0).luma_weights =~= Seq::empty());
            assert(set.plane(1).chroma_weights =~= Seq::empty());
            assert(set.plane(1).luma_weights =~= Seq::empty());
        }
        set
    }
}

/// EFE linear filter parameters (`EFE_linear_filter_enabled_flag`).
#[derive(Clone, Debug, PartialEq, Eq)]
pub struct EfeLinearHeader {
    /// Chroma plane means in 1/100 units.
    pub mean: [u16; 2],
    /// First coded set: used to build the up-sampled picture for the EFE non-linear filter.
    pub upsample_set: EfeLinearSet,
    /// Second coded set: the filter proper.
    pub set: EfeLinearSet,
}

/// EFE linear filter parameters as a value.
pub struct EfeLinearView {
    pub mean: (u16, u16),
    pub upsample_set: EfeSetView,
    pub set: EfeSetView,
}

impl View for EfeLinearHeader {
    type V = EfeLinearView;

    open spec fn view(&self) -> EfeLinearView {
        EfeLinearView {
            mean: (self.mean@[0], self.mean@[1]),
            upsample_set: self.upsample_set@,
            set: self.set@,
        }
    }
}

impl Default for EfeLinearHeader {
    fn default() -> (h: Self)
        ensures
            h@ == (EfeLinearView { mean: (0, 0), upsample_set: empty_set(), set: empty_set() }),
    {
        EfeLinearHeader {
            mean: [0, 0],
            upsample_set: EfeLinearSet::default(),
            set: EfeLinearSet::default(),
        }
    }
}

/// The candidate that four bits stand for: none for zero.
pub open spec fn cand_of(v: u32) -> Option<u8> {
    if v == 0 {
        None
    } else {
        Some((v - 1) as u8)
    }
}

/// The filter side length of a plane at a position, if the plane is filtered.
pub open spec fn spec_filter_len(s: Seq<bool>, pos: int, cand: Option<u8>) -> bitio::Parsed<u8> {
    match cand {
        None => Ok((0, pos)),
        Some(c) => if c >= 8 {
            Err(Error::InvalidData("EFE linear: best_cand_idx out of range"))
        } else if pos + 4 > s.len() {
            Err(Error::UnexpectedEof)
        } else if !(1 <= bitio::field(s, pos, 4) <= 4) {
            Err(Error::InvalidData("EFE linear: filter length out of range"))
        } else {
            Ok((bitio::field(s, pos, 4) as u8, pos + 4))
        },
    }
}

/// `count` lists of `n` symbols each, from a position on.
#[verifier::opaque]
pub open spec fn spec_lists(s: Seq<bool>, pos: int, count: nat, n: nat, max_symbol: nat)
    -> bitio::Parsed<Seq<Seq<u32>>> {
    let width = bitio::bit_width(max_symbol);
    let each = n * width;
    if pos + count * each > s.len() {
        Err(Error::UnexpectedEof)
    } else {
        Ok(
            (
                Seq::new(count, |k: int| symbols(s, pos + k * each, n, width)),
                pos + count * each,
            ),
        )
    }
}

/// Number of chroma weights of one filter.
pub open spec fn chroma_taps(filter_len: u8, coded_444: bool) -> nat {
    if coded_444 {
        (filter_len * filter_len) as nat
    } else {
        (4 * (filter_len * filter_len)) as nat
    }
}

/// The weights of one plane at a position: those of the chroma filters, then those of the luma
/// filters.
#[verifier::opaque]
pub open spec fn spec_weights(
    s: Seq<bool>,
    pos: int,
    cand: Option<u8>,
    filter_len: u8,
    coded_444: bool,
    max_symbol: nat,
) -> bitio::Parsed<EfePlaneView> {
    match cand {
        None => Ok(
            (
                EfePlaneView {
                    cand,
                    filter_len,
                    chroma_weights: Seq::empty(),
                    luma_weights: Seq::empty(),
                },
                pos,
            ),
        ),
        Some(c) => match spec_lists(
            s,
            pos,
            splits_of(c),
            chroma_taps(filter_len, coded_444),
            max_symbol,
        ) {
            Err(e) => Err(e),
            Ok((chroma_weights, p)) => match spec_lists(
                s,
                p,
                splits_of(c),
                chroma_taps(filter_len, true),
                max_symbol,
            ) {
                Err(e) => Err(e),
                Ok((luma_weights, q)) => Ok(
                    (EfePlaneView { cand, filter_len, chroma_weights, luma_weights }, q),
                ),
            },
        },
    }
}

/// A set of filters at a position.
#[verifier::opaque]
pub open spec fn spec_linear_set(s: Seq<bool>, pos: int, coded_444: bool) -> bitio::Parsed<
    EfeSetView,
> {
    if pos + 8 > s.len() {
        Err(Error::UnexpectedEof)
    } else {
        let cand0 = cand_of(bitio::field(s, pos, 4));
        let cand1 = cand_of(bitio::field(s, pos + 4, 4));
        match spec_filter_len(s, pos + 8, cand0) {
            Err(e) => Err(e),
            Ok((len0, p1)) => match spec_filter_len(s, p1, cand1) {
                Err(e) => Err(e),
                Ok((len1, p2)) => if p2 + 32 > s.len() {
                    Err(Error::UnexpectedEof)
                } else {
                    let min_symbol = bitio::field(s, p2, 16) as u16;
                    let max_symbol = bitio::field(s, p2 + 16, 16) as u16;
                    match spec_weights(s, p2 + 32, cand0, len0, coded_444, max_symbol as nat) {
                        Err(e) => Err(e),
                        Ok((first, p3)) => match spec_weights(
                            s,
                            p3,
                            cand1,
                            len1,
                            coded_444,
                            max_symbol as nat,
                        ) {
                            Err(e) => Err(e),
                            Ok((second, p4)) => Ok(
                                (EfeSetView { first, second, min_symbol, max_symbol }, p4),
                            ),
                        },
                    }
                },
            },
        }
    }
}

fn read_lists(r: &mut BitReader<'_>, count: usize, n: usize, max_symbol: u32) -> (v: Result<
    Vec<Vec<u32>>,
>)
    requires
        old(r).wf(),
    ensures
        final(r).follows(old(r)),
        match spec_lists(
            old(r).bits(),
            old(r).pos(),
            count as nat,
            n as nat,
            max_symbol as nat,
        ) {
            Ok((f, p)) => v matches Ok(x) && lists(x@) == f && final(r).pos() == p,
            Err(e) => v == Err::<Vec<Vec<u32>>, Error>(e),
        },
{
    let ghost s = r.bits();
    let ghost pos = r.pos();
    let ghost width = bitio::bit_width(max_symbol as nat);
    let ghost each = n as nat * width;
    let mut out: Vec<Vec<u32>> = Vec::new();
    let mut k: usize = 0;
    proof {
        reveal(spec_lists);
    }
    while k < count
        invariant
            k <= count,
            r.follows(old(r)),
            s == old(r).bits(),
            s == r.bits(),
            pos == old(r).pos(),
            width == bitio::bit_width(max_symbol as nat),
            each == n as nat * width,
            r.pos() == pos + k * each,
            out@.len() == k,
            forall|j: int|
                0 <= j < k ==> (#[trigger] out@[j])@ == symbols(s, pos + j * each, n as nat, width),
        decreases count - k,
    {
        proof {
            reveal(spec_lists);
            let (a, b, e) = (k as int, count as int, each as int);
            assert((a + 1) * e == a * e + e) by (nonlinear_arith);
            assert((a + 1) * e <= b * e) by (nonlinear_arith)
                requires
                    a + 1 <= b,
                    e >= 0,
            ;
        }
        let f: Vec<u32> = read_symbols(r, n, max_symbol)?;
        out.push(f);
        k = k + 1;
    }
    proof {
        assert(lists(out@) =~= Seq::new(
            count as nat,
            |k: int| symbols(s, pos + k * each, n as nat, width),
        ));
    }
    Ok(out)
}

fn read_filter_len(r: &mut BitReader<'_>, cand: Option<u8>) -> (v: Result<u8>)
    requires
        old(r).wf(),
    ensures
        final(r).follows(old(r)),
        bitio::agrees(v, final(r).pos(), spec_filter_len(old(r).bits(), old(r).pos(), cand)),
        v matches Ok(n) ==> n <= 4,
        v is Ok && cand is Some ==> cand->0 < 8,
{
    proof {
        bitio::lemma_widths();
    }
    match cand {
        None => Ok(0),
        Some(c) => {
            if c >= 8 {
                return Err(Error::InvalidData("EFE linear: best_cand_idx out of range"));
            }
            let n: u32 = r.read_bounded(9)?;
            if n < 1 || n > 4 {
                return Err(Error::InvalidData("EFE linear: filter length out of range"));
            }
            Ok(n as u8)
        },
    }
}

/// The chroma and the luma weights of one plane.
fn read_weights(
    r: &mut BitReader<'_>,
    cand: Option<u8>,
    filter_len: u8,
    coded_444: bool,
    max_symbol: u32,
) -> (v: Result<(Vec<Vec<u32>>, Vec<Vec<u32>>)>)
    requires
        old(r).wf(),
        filter_len <= 4,
        cand is Some ==> cand->0 < 8,
    ensures
        final(r).follows(old(r)),
        match spec_weights(
            old(r).bits(),
            old(r).pos(),
            cand,
            filter_len,
            coded_444,
            max_symbol as nat,
        ) {
            Ok((f, p)) => v matches Ok(x) && f == (EfePlaneView {
                cand,
                filter_len,
                chroma_weights: lists(x.0@),
                luma_weights: lists(x.1@),
            }) && final(r).pos() == p,
            Err(e) => v == Err::<(Vec<Vec<u32>>, Vec<Vec<u32>>), Error>(e),
        },
{
    proof {
        reveal(spec_weights);
    }
    match cand {
        None => {
            let a: Vec<Vec<u32>> = Vec::new();
            let b: Vec<Vec<u32>> = Vec::new();
            proof {
                assert(lists(a@) =~= Seq::empty());
                assert(lists(b@) =~= Seq::empty());
            }
            Ok((a, b))
        },
        Some(c) => {
            let splits: usize = EFE_LINEAR_SPLITS[c as usize];
            let len: usize = filter_len as usize;
            proof {
                assert(len * len <= 16) by (nonlinear_arith)
                    requires
                        len <= 4,
                ;
            }
            let taps: usize = len * len;
            let chroma: usize = if coded_444 { taps } else { 4 * taps };
            let a = read_lists(r, splits, chroma, max_symbol)?;
            let b = read_lists(r, splits, taps, max_symbol)?;
            Ok((a, b))
        },
    }
}

fn cand_from(v: u32) -> (c: Option<u8>)
    requires
        v < 16,
    ensures
        c == cand_of(v),
{
    if v == 0 {
        None
    } else {
        Some((v - 1) as u8)
    }
}

impl EfeLinearSet {
    /// Read a set of filters.
    pub fn parse(r: &mut BitReader<'_>, coded_444: bool) -> (v: Result<Self>)
        requires
            old(r).wf(),
        ensures
            final(r).follows(old(r)),
            match spec_linear_set(old(r).bits(), old(r).pos(), coded_444) {
                Ok((f, p)) => v matches Ok(x) && x@ == f && final(r).pos() == p,
                Err(e) => v == Err::<EfeLinearSet, Error>(e),
            },
    {
        proof {
            reveal(spec_linear_set);
            bitio::lemma_widths();
            power2::lemma2_to64();
        }
        let v0: u32 = r.read_bounded(15)?;
        let v1: u32 = r.read_bounded(15)?;
        let cand0: Option<u8> = cand_from(v0);
        let cand1: Option<u8> = cand_from(v1);
        let len0: u8 = read_filter_len(r, cand0)?;
        let len1: u8 = read_filter_len(r, cand1)?;
        let min_symbol: u16 = r.read_bounded(65535)? as u16;
        let max_symbol: u16 = r.read_bounded(65535)? as u16;
        let (chroma0, luma0) = read_weights(r, cand0, len0, coded_444, max_symbol as u32)?;
        let (chroma1, luma1) = read_weights(r, cand1, len1, coded_444, max_symbol as u32)?;
        Ok(
            EfeLinearSet {
                cand: [cand0, cand1],
                filter_len: [len0, len1],
                min_symbol,
                max_symbol,
                chroma_weights: [chroma0, chroma1],
                luma_weights: [luma0, luma1],
            },
        )
    }
}

/// The bits of lists of symbols of `width` bits each.
pub open spec fn lists_code(v: Seq<Seq<u32>>, width: nat) -> Seq<bool>
    decreases v.len(),
{
    if v.len() == 0 {
        Seq::empty()
    } else {
        lists_code(v.drop_last(), width) + symbols_code(v.last(), width)
    }
}

/// `count` lists of `n` symbols each.
pub open spec fn lists_shaped(v: Seq<Seq<u32>>, count: nat, n: nat) -> bool {
    v.len() == count && forall|i: int| 0 <= i < v.len() ==> (#[trigger] v[i]).len() == n
}

/// No symbol is above `max`.
pub open spec fn list_within(v: Seq<u32>, max: nat) -> bool {
    forall|i: int| 0 <= i < v.len() ==> #[trigger] v[i] <= max
}

/// No symbol of any list is above `max`.
pub open spec fn lists_within(v: Seq<Seq<u32>>, max: nat) -> bool {
    forall|i: int| 0 <= i < v.len() ==> list_within(#[trigger] v[i], max)
}

/// Why lists of filter weights cannot be written, if they cannot.
pub open spec fn lists_error(v: Seq<Seq<u32>>, count: nat, n: nat, max: nat) -> Option<Error> {
    if !lists_shaped(v, count, n) {
        Some(Error::InvalidArgument("EFE linear: filter list shape"))
    } else if !lists_within(v, max) {
        Some(Error::InvalidArgument("EFE linear: weight above maxSymbol"))
    } else {
        None
    }
}

/// Why the filters of a plane cannot be written, if they cannot.
pub open spec fn plane_error(v: EfePlaneView, coded_444: bool, max: nat) -> Option<Error> {
    match v.cand {
        None => None,
        Some(c) => if c >= 8 {
            Some(Error::InvalidArgument("EFE linear: best_cand_idx out of range"))
        } else {
            let chroma = lists_error(
                v.chroma_weights,
                splits_of(c),
                chroma_taps(v.filter_len, coded_444),
                max,
            );
            if chroma is Some {
                chroma
            } else {
                lists_error(v.luma_weights, splits_of(c), chroma_taps(v.filter_len, true), max)
            }
        },
    }
}

/// Why a set of filters cannot be written, if it cannot.
pub open spec fn set_error(v: EfeSetView, coded_444: bool) -> Option<Error> {
    let first = plane_error(v.first, coded_444, v.max_symbol as nat);
    if first is Some {
        first
    } else {
        plane_error(v.second, coded_444, v.max_symbol as nat)
    }
}

/// The number that stands for a candidate.
pub open spec fn cand_value(cand: Option<u8>) -> nat {
    match cand {
        None => 0,
        Some(c) => (c + 1) as nat,
    }
}

/// The bits of a plane's filter length.
pub open spec fn filter_len_code(v: EfePlaneView) -> Seq<bool> {
    match v.cand {
        None => Seq::empty(),
        Some(c) => bits::low_bits(v.filter_len as nat, 4),
    }
}

/// The bits of a plane's weights.
pub open spec fn weights_code(v: EfePlaneView, width: nat) -> Seq<bool> {
    match v.cand {
        None => Seq::empty(),
        Some(c) => lists_code(v.chroma_weights, width) + lists_code(v.luma_weights, width),
    }
}

/// The bits of a set of filters.
#[verifier::opaque]
pub open spec fn set_code(v: EfeSetView) -> Seq<bool> {
    let width = bitio::bit_width(v.max_symbol as nat);
    bits::low_bits(cand_value(v.first.cand), 4) + bits::low_bits(cand_value(v.second.cand), 4)
        + filter_len_code(v.first) + filter_len_code(v.second) + bits::low_bits(
        v.min_symbol as nat,
        16,
    ) + bits::low_bits(v.max_symbol as nat, 16) + weights_code(v.first, width) + weights_code(
        v.second,
        width,
    )
}

/// Whether every symbol is at most `max`.
fn within(v: &Vec<u32>, max: u32) -> (b: bool)
    ensures
        b == list_within(v@, max as nat),
{
    let mut i: usize = 0;
    while i < v.len()
        invariant
            i <= v@.len(),
            forall|j: int| 0 <= j < i ==> #[trigger] v@[j] <= max,
        decreases v@.len() - i,
    {
        if v[i] > max {
            return false;
        }
        i = i + 1;
    }
    true
}

/// Whether there are `count` lists of `n` symbols each.
fn shaped(v: &Vec<Vec<u32>>, count: usize, n: usize) -> (b: bool)
    ensures
        b == lists_shaped(lists(v@), count as nat, n as nat),
{
    if v.len() != count {
        return false;
    }
    let mut i: usize = 0;
    while i < v.len()
        invariant
            i <= v@.len(),
            forall|j: int| 0 <= j < i ==> (#[trigger] v@[j])@.len() == n,
        decreases v@.len() - i,
    {
        if v[i].len() != n {
            proof {
                assert(lists(v@)[i as int].len() != n);
            }
            return false;
        }
        i = i + 1;
    }
    true
}

fn write_lists(w: &mut BitWriter, v: &Vec<Vec<u32>>, count: usize, n: usize, max: u32) -> (r:
    Result<()>)
    requires
        old(w).wf(),
    ensures
        final(w).wf(),
        match lists_error(lists(v@), count as nat, n as nat, max as nat) {
            Some(e) => r == Err::<(), Error>(e),
            None => r is Ok && final(w).bits() == old(w).bits() + lists_code(
                lists(v@),
                bitio::bit_width(max as nat),
            ),
        },
{
    if !shaped(v, count, n) {
        return Err(Error::InvalidArgument("EFE linear: filter list shape"));
    }
    let width: u32 = bitio::bits_for_max(max);
    let ghost vs = lists(v@);
    let mut k: usize = 0;
    proof {
        assert(lists_code(vs.take(0), width as nat) =~= Seq::empty());
        assert(w.bits() =~= old(w).bits() + lists_code(vs.take(0), width as nat));
    }
    while k < v.len()
        invariant
            k <= v@.len(),
            vs == lists(v@),
            lists_shaped(vs, count as nat, n as nat),
            width == bitio::bit_width(max as nat),
            width <= 32,
            w.wf(),
            w.bits() == old(w).bits() + lists_code(vs.take(k as int), width as nat),
            forall|i: int| 0 <= i < k ==> list_within(#[trigger] vs[i], max as nat),
        decreases v@.len() - k,
    {
        if !within(&v[k], max) {
            proof {
                assert(!list_within(vs[k as int], max as nat));
            }
            return Err(Error::InvalidArgument("EFE linear: weight above maxSymbol"));
        }
        write_symbols(w, &v[k], width);
        proof {
            assert(vs.take(k + 1).drop_last() =~= vs.take(k as int));
            assert(w.bits() =~= old(w).bits() + lists_code(vs.take(k + 1), width as nat));
        }
        k = k + 1;
    }
    proof {
        assert(vs.take(k as int) =~= vs);
    }
    Ok(())
}

impl EfeLinearSet {
    fn write_plane(&self, w: &mut BitWriter, p: usize, coded_444: bool) -> (r: Result<()>)
        requires
            old(w).wf(),
            p < 2,
        ensures
            final(w).wf(),
            match plane_error(self.plane(p as int), coded_444, self.max_symbol as nat) {
                Some(e) => r == Err::<(), Error>(e),
                None => r is Ok && final(w).bits() == old(w).bits() + weights_code(
                    self.plane(p as int),
                    bitio::bit_width(self.max_symbol as nat),
                ),
            },
    {
        match self.cand[p] {
            None => {
                proof {
                    assert(w.bits() =~= w.bits() + Seq::empty());
                }
                Ok(())
            },
            Some(c) => {
                if c >= 8 {
                    return Err(Error::InvalidArgument("EFE linear: best_cand_idx out of range"));
                }
                let splits: usize = EFE_LINEAR_SPLITS[c as usize];
                let len: usize = self.filter_len[p] as usize;
                proof {
                    assert(len * len <= 255 * 255) by (nonlinear_arith)
                        requires
                            len <= 255,
                    ;
                }
                let taps: usize = len * len;
                let chroma: usize = if coded_444 { taps } else { 4 * taps };
                write_lists(w, &self.chroma_weights[p], splits, chroma, self.max_symbol as u32)?;
                let ghost mid = w.bits();
                write_lists(w, &self.luma_weights[p], splits, taps, self.max_symbol as u32)?;
                proof {
                    let width = bitio::bit_width(self.max_symbol as nat);
                    let a = lists_code(self.plane(p as int).chroma_weights, width);
                    let b = lists_code(self.plane(p as int).luma_weights, width);
                    assert(old(w).bits() + a + b =~= old(w).bits() + (a + b));
                }
                Ok(())
            },
        }
    }

    fn write_len(&self, w: &mut BitWriter, p: usize)
        requires
            old(w).wf(),
            p < 2,
        ensures
            final(w).wf(),
            final(w).bits() == old(w).bits() + filter_len_code(self.plane(p as int)),
    {
        if self.cand[p].is_some() {
            w.write_bits(self.filter_len[p] as u32, 4);
        } else {
            proof {
                assert(w.bits() =~= w.bits() + Seq::empty());
            }
        }
    }

    /// Append a set of filters.
    pub fn write(&self, w: &mut BitWriter, coded_444: bool) -> (r: Result<()>)
        requires
            old(w).wf(),
        ensures
            final(w).wf(),
            match set_error(self@, coded_444) {
                Some(e) => r == Err::<(), Error>(e),
                None => r is Ok && final(w).bits() == old(w).bits() + set_code(self@),
            },
    {
        let c0: u32 = match self.cand[0] {
            None => 0,
            Some(c) => c as u32 + 1,
        };
        let c1: u32 = match self.cand[1] {
            None => 0,
            Some(c) => c as u32 + 1,
        };
        let ghost base = w.bits();
        w.write_bits(c0, 4);
        w.write_bits(c1, 4);
        self.write_len(w, 0);
        self.write_len(w, 1);
        w.write_bits(self.min_symbol as u32, 16);
        w.write_bits(self.max_symbol as u32, 16);
        self.write_plane(w, 0, coded_444)?;
        self.write_plane(w, 1, coded_444)?;
        proof {
            reveal(set_code);
            let v = self@;
            let width = bitio::bit_width(v.max_symbol as nat);
            picture::lemma_concat8(
                base,
                bits::low_bits(cand_value(v.first.cand), 4),
                bits::low_bits(cand_value(v.second.cand), 4),
                filter_len_code(v.first),
                filter_len_code(v.second),
                bits::low_bits(v.min_symbol as nat, 16),
                bits::low_bits(v.max_symbol as nat, 16),
                weights_code(v.first, width),
                weights_code(v.second, width),
            );
        }
        Ok(())
    }
}

/// What a plane of a parsed set can hold, beyond what [`plane_error`] asks for.
pub open spec fn plane_codable(v: EfePlaneView) -> bool {
    if v.cand is None {
        v == no_filters()
    } else {
        1 <= v.filter_len <= 4
    }
}

proof fn lemma_lists_len(v: Seq<Seq<u32>>, n: nat, width: nat)
    requires
        forall|i: int| 0 <= i < v.len() ==> (#[trigger] v[i]).len() == n,
    ensures
        lists_code(v, width).len() == v.len() * (n * width),
    decreases v.len(),
{
    if v.len() > 0 {
        let init = v.drop_last();
        assert forall|i: int| 0 <= i < init.len() implies (#[trigger] init[i]).len() == n by {
            assert(v[i].len() == n);
        }
        lemma_lists_len(init, n, width);
        lemma_symbols_len(v.last(), width);
        assert(v[v.len() - 1].len() == n);
        let (k, e) = (v.len() as int, (n * width) as int);
        assert((k - 1) * e + e == k * e) by (nonlinear_arith);
    } else {
        assert(0 * (n * width) == 0) by (nonlinear_arith);
    }
}

/// Where the codes of lists stand, the symbols are theirs.
proof fn lemma_lists_at(s: Seq<bool>, pos: int, v: Seq<Seq<u32>>, n: nat, max: nat, i: int)
    requires
        max <= u32::MAX,
        0 <= i < v.len(),
        forall|j: int| 0 <= j < v.len() ==> (#[trigger] v[j]).len() == n,
        lists_within(v, max),
        bits::has_at(s, pos, lists_code(v, bitio::bit_width(max))),
    ensures
        symbols(s, pos + i * (n * bitio::bit_width(max)), n, bitio::bit_width(max)) == v[i],
    decreases v.len(),
{
    let width = bitio::bit_width(max);
    let init = v.drop_last();
    assert forall|j: int| 0 <= j < init.len() implies (#[trigger] init[j]).len() == n by {
        assert(v[j].len() == n);
    }
    bits::lemma_has_at_concat(s, pos, lists_code(init, width), symbols_code(v.last(), width));
    lemma_lists_len(init, n, width);
    if i == v.len() - 1 {
        assert(list_within(v[i], max));
        assert(v[i].len() == n);
        lemma_read_symbols(s, pos + i * (n * width), v[i], max);
    } else {
        assert forall|j: int| 0 <= j < init.len() implies list_within(#[trigger] init[j], max) by {
            assert(list_within(v[j], max));
        }
        lemma_lists_at(s, pos, init, n, max, i);
    }
}

proof fn lemma_read_lists(s: Seq<bool>, pos: int, v: Seq<Seq<u32>>, count: nat, n: nat, max: nat)
    requires
        max <= u32::MAX,
        lists_error(v, count, n, max) is None,
        bits::has_at(s, pos, lists_code(v, bitio::bit_width(max))),
    ensures
        spec_lists(s, pos, count, n, max) == Ok::<(Seq<Seq<u32>>, int), Error>(
            (v, pos + lists_code(v, bitio::bit_width(max)).len()),
        ),
{
    reveal(spec_lists);
    let width = bitio::bit_width(max);
    lemma_lists_len(v, n, width);
    let each = n * width;
    let read = Seq::new(count, |k: int| symbols(s, pos + k * each, n, width));
    assert forall|i: int| 0 <= i < count implies read[i] == v[i] by {
        lemma_lists_at(s, pos, v, n, max, i);
    }
    assert(read =~= v);
}

proof fn lemma_read_weights(s: Seq<bool>, pos: int, v: EfePlaneView, coded_444: bool, max: nat)
    requires
        max <= u32::MAX,
        plane_error(v, coded_444, max) is None,
        plane_codable(v),
        bits::has_at(s, pos, weights_code(v, bitio::bit_width(max))),
    ensures
        spec_weights(s, pos, v.cand, v.filter_len, coded_444, max) == Ok::<
            (EfePlaneView, int),
            Error,
        >((v, pos + weights_code(v, bitio::bit_width(max)).len())),
{
    reveal(spec_weights);
    match v.cand {
        None => {},
        Some(c) => {
            let width = bitio::bit_width(max);
            let a = lists_code(v.chroma_weights, width);
            let b = lists_code(v.luma_weights, width);
            bits::lemma_has_at_concat(s, pos, a, b);
            lemma_read_lists(
                s,
                pos,
                v.chroma_weights,
                splits_of(c),
                chroma_taps(v.filter_len, coded_444),
                max,
            );
            lemma_read_lists(
                s,
                pos + a.len(),
                v.luma_weights,
                splits_of(c),
                chroma_taps(v.filter_len, true),
                max,
            );
        },
    }
}

proof fn lemma_read_set(s: Seq<bool>, pos: int, v: EfeSetView, coded_444: bool)
    requires
        set_error(v, coded_444) is None,
        plane_codable(v.first),
        plane_codable(v.second),
        bits::has_at(s, pos, set_code(v)),
    ensures
        spec_linear_set(s, pos, coded_444) == Ok::<(EfeSetView, int), Error>(
            (v, pos + set_code(v).len()),
        ),
{
    reveal(spec_linear_set);
    reveal(set_code);
    power2::lemma2_to64();
    let max = v.max_symbol as nat;
    let width = bitio::bit_width(max);
    let a = bits::low_bits(cand_value(v.first.cand), 4);
    let b = bits::low_bits(cand_value(v.second.cand), 4);
    let c = filter_len_code(v.first);
    let d = filter_len_code(v.second);
    let e = bits::low_bits(v.min_symbol as nat, 16);
    let f = bits::low_bits(v.max_symbol as nat, 16);
    let g = weights_code(v.first, width);
    let h = weights_code(v.second, width);
    bits::lemma_has_at_concat(s, pos, a + b + c + d + e + f + g, h);
    bits::lemma_has_at_concat(s, pos, a + b + c + d + e + f, g);
    bits::lemma_has_at_concat(s, pos, a + b + c + d + e, f);
    bits::lemma_has_at_concat(s, pos, a + b + c + d, e);
    bits::lemma_has_at_concat(s, pos, a + b + c, d);
    bits::lemma_has_at_concat(s, pos, a + b, c);
    bits::lemma_has_at_concat(s, pos, a, b);
    bitio::lemma_field(s, pos, cand_value(v.first.cand), 4);
    bitio::lemma_field(s, pos + 4, cand_value(v.second.cand), 4);
    let p1 = pos + 8 + c.len();
    let p2 = p1 + d.len();
    if v.first.cand is Some {
        bitio::lemma_field(s, pos + 8, v.first.filter_len as nat, 4);
    }
    if v.second.cand is Some {
        bitio::lemma_field(s, p1, v.second.filter_len as nat, 4);
    }
    bitio::lemma_field(s, p2, v.min_symbol as nat, 16);
    bitio::lemma_field(s, p2 + 16, v.max_symbol as nat, 16);
    lemma_read_weights(s, p2 + 32, v.first, coded_444, max);
    lemma_read_weights(s, p2 + 32 + g.len(), v.second, coded_444, max);
}

/// Networks per operating point in the eICCI model bank (the "long list").
pub const ICCI_MODELS: u32 = 10;

/// Entries of a per-model eICCI short list.
pub const ICCI_SHORT_LIST: u32 = 2;

/// eICCI model selection of one filter tile.
#[derive(Clone, Copy, Debug, PartialEq, Eq)]
pub struct IcciTile {
    /// Filter Y / U / V.
    pub use_yuv: [bool; 3],
    /// Whether the indices address the per-model short list (2 entries) instead of all 10
    /// networks of the operating point (present when any plane is filtered).
    pub short_list: bool,
    /// Signalled luma model index; meaningful when luma is filtered.
    pub index_y: u8,
    /// See `index_y`, chroma (U and V share one index).
    pub index_uv: u8,
}

/// The model selection of a filter tile as a value.
pub struct IcciTileView {
    pub y: bool,
    pub u: bool,
    pub v: bool,
    pub short_list: bool,
    pub index_y: u8,
    pub index_uv: u8,
}

impl View for IcciTile {
    type V = IcciTileView;

    open spec fn view(&self) -> IcciTileView {
        IcciTileView {
            y: self.use_yuv@[0],
            u: self.use_yuv@[1],
            v: self.use_yuv@[2],
            short_list: self.short_list,
            index_y: self.index_y,
            index_uv: self.index_uv,
        }
    }
}

impl Default for IcciTile {
    fn default() -> (t: Self)
        ensures
            t@ == (IcciTileView {
                y: false,
                u: false,
                v: false,
                short_list: false,
                index_y: 0,
                index_uv: 0,
            }),
    {
        IcciTile { use_yuv: [false, false, false], short_list: false, index_y: 0, index_uv: 0 }
    }
}

/// eICCI parameters (`icci_enable_flag`).
#[derive(Clone, Debug, PartialEq, Eq)]
pub struct IcciHeader {
    /// The filter's own tiling (same syntax as synthesis tiling); `None` = one tile.
    pub tiling: Option<SynthesisTiling>,
    /// One entry per filter tile, raster order.
    pub tiles: Vec<IcciTile>,
}

/// eICCI parameters as a value.
pub struct IcciView {
    pub tiling: Option<SynthesisTiling>,
    pub tiles: Seq<IcciTileView>,
}

/// Tiles as values.
pub open spec fn tile_views(tiles: Seq<IcciTile>) -> Seq<IcciTileView> {
    Seq::new(tiles.len(), |i: int| tiles[i]@)
}

impl View for IcciHeader {
    type V = IcciView;

    open spec fn view(&self) -> IcciView {
        IcciView { tiling: self.tiling, tiles: tile_views(self.tiles@) }
    }
}

impl Default for IcciHeader {
    fn default() -> (h: Self)
        ensures
            h@.tiling is None,
            h@.tiles == Seq::<IcciTileView>::empty(),
    {
        let h = IcciHeader { tiling: None, tiles: Vec::new() };
        proof {
            assert(h@.tiles =~= Seq::empty());
        }
        h
    }
}

/// Tiles along one axis: one every `tile - overlap` samples, over `len - overlap` samples.
pub open spec fn spec_axis_tiles(len: int, t: SynthesisTiling) -> core::result::Result<int, Error> {
    let tile = if t.tile_size < len {
        t.tile_size as int
    } else {
        len
    };
    if tile <= t.overlap || len <= t.overlap {
        Err(Error::InvalidData("eICCI: tile not larger than its overlap"))
    } else {
        Ok(picture::ceil_of(len - t.overlap, tile - t.overlap))
    }
}

/// Number of filter tiles of a picture.
pub open spec fn spec_tile_count(
    height: int,
    width: int,
    tiling: Option<SynthesisTiling>,
) -> core::result::Result<int, Error> {
    match tiling {
        None => Ok(1),
        Some(t) => match spec_axis_tiles(height, t) {
            Err(e) => Err(e),
            Ok(rows) => match spec_axis_tiles(width, t) {
                Err(e) => Err(e),
                Ok(cols) => Ok(rows * cols),
            },
        },
    }
}

/// Number of models that an index addresses.
pub open spec fn model_count(short_list: bool) -> nat {
    if short_list {
        2
    } else {
        10
    }
}

/// Bits of a model index.
pub open spec fn index_width(short_list: bool) -> nat {
    if short_list {
        2
    } else {
        4
    }
}

/// A model index at a position, if it is used.
pub open spec fn spec_model_index(s: Seq<bool>, pos: int, used: bool, short_list: bool) -> bitio::Parsed<
    u8,
> {
    if !used {
        Ok((0, pos))
    } else if pos + index_width(short_list) > s.len() {
        Err(Error::UnexpectedEof)
    } else if bitio::field(s, pos, index_width(short_list)) >= model_count(short_list) {
        Err(Error::InvalidData("eICCI: model index out of range"))
    } else {
        Ok((bitio::field(s, pos, index_width(short_list)) as u8, pos + index_width(short_list)))
    }
}

/// The model selection of a tile at a position.
#[verifier::opaque]
pub open spec fn spec_icci_tile(s: Seq<bool>, pos: int) -> bitio::Parsed<IcciTileView> {
    if pos + 3 > s.len() {
        Err(Error::UnexpectedEof)
    } else {
        let (y, u, v) = (s[pos], s[pos + 1], s[pos + 2]);
        if !(y || u || v) {
            Ok(
                (
                    IcciTileView { y, u, v, short_list: false, index_y: 0, index_uv: 0 },
                    pos + 3,
                ),
            )
        } else if pos + 4 > s.len() {
            Err(Error::UnexpectedEof)
        } else {
            let short_list = s[pos + 3];
            match spec_model_index(s, pos + 4, y, short_list) {
                Err(e) => Err(e),
                Ok((index_y, p)) => match spec_model_index(s, p, u || v, short_list) {
                    Err(e) => Err(e),
                    Ok((index_uv, q)) => Ok(
                        (IcciTileView { y, u, v, short_list, index_y, index_uv }, q),
                    ),
                },
            }
        }
    }
}

/// `count` tiles behind the `acc` that have been read.
pub open spec fn spec_icci_tiles(s: Seq<bool>, pos: int, count: nat, acc: Seq<IcciTileView>)
    -> bitio::Parsed<Seq<IcciTileView>>
    decreases count,
{
    if count == 0 {
        Ok((acc, pos))
    } else {
        match spec_icci_tile(s, pos) {
            Err(e) => Err(e),
            Ok((t, p)) => spec_icci_tiles(s, p, (count - 1) as nat, acc.push(t)),
        }
    }
}

/// eICCI parameters at a position, for a picture of this size. A tile takes three bits at least:
/// more tiles than the payload can hold are refused at once.
#[verifier::opaque]
pub open spec fn spec_icci(s: Seq<bool>, pos: int, height: int, width: int) -> bitio::Parsed<
    IcciView,
> {
    match picture::flagged(
        s,
        pos,
        picture::spec_tiling(s, pos + 1, "eICCI: tile size is zero"),
    ) {
        Err(e) => Err(e),
        Ok((tiling, p)) => match spec_tile_count(height, width, tiling) {
            Err(e) => Err(e),
            Ok(count) => if p + count * 3 > s.len() {
                Err(Error::UnexpectedEof)
            } else {
                match spec_icci_tiles(s, p, count as nat, Seq::empty()) {
                    Err(e) => Err(e),
                    Ok((tiles, q)) => Ok((IcciView { tiling, tiles }, q)),
                }
            },
        },
    }
}

fn read_model_index(r: &mut BitReader<'_>, used: bool, short_list: bool) -> (v: Result<u8>)
    requires
        old(r).wf(),
    ensures
        final(r).follows(old(r)),
        bitio::agrees(
            v,
            final(r).pos(),
            spec_model_index(old(r).bits(), old(r).pos(), used, short_list),
        ),
{
    proof {
        bitio::lemma_widths();
    }
    if !used {
        return Ok(0);
    }
    let count: u32 = if short_list { ICCI_SHORT_LIST } else { ICCI_MODELS };
    let v: u32 = r.read_bounded(count)?;
    if v >= count {
        return Err(Error::InvalidData("eICCI: model index out of range"));
    }
    Ok(v as u8)
}

impl IcciTile {
    fn parse(r: &mut BitReader<'_>) -> (v: Result<Self>)
        requires
            old(r).wf(),
        ensures
            final(r).follows(old(r)),
            match spec_icci_tile(old(r).bits(), old(r).pos()) {
                Ok((t, p)) => v matches Ok(x) && x@ == t && final(r).pos() == p,
                Err(e) => v == Err::<IcciTile, Error>(e),
            },
    {
        proof {
            reveal(spec_icci_tile);
        }
        let y: bool = r.read_bit()?;
        let u: bool = r.read_bit()?;
        let v: bool = r.read_bit()?;
        if !(y || u || v) {
            return Ok(
                IcciTile { use_yuv: [y, u, v], short_list: false, index_y: 0, index_uv: 0 },
            );
        }
        let short_list: bool = r.read_bit()?;
        let index_y: u8 = read_model_index(r, y, short_list)?;
        let index_uv: u8 = read_model_index(r, u || v, short_list)?;
        Ok(IcciTile { use_yuv: [y, u, v], short_list, index_y, index_uv })
    }
}

/// The number of tiles is no more than the number of samples.
proof fn lemma_axis_tiles(len: int, t: SynthesisTiling)
    requires
        len >= 0,
    ensures
        spec_axis_tiles(len, t) matches Ok(n) ==> 1 <= n <= len,
{
    let tile = if t.tile_size < len {
        t.tile_size as int
    } else {
        len
    };
    if tile > t.overlap && len > t.overlap {
        let (a, b) = (len - t.overlap, tile - t.overlap);
        assert(1 <= (a + b - 1) / b <= a) by (nonlinear_arith)
            requires
                a >= 1,
                b >= 1,
        ;
    }
}

impl IcciHeader {
    /// Tiles along one axis.
    fn axis_tiles(len: usize, t: SynthesisTiling) -> (r: Result<usize>)
        requires
            len <= u32::MAX,
        ensures
            match spec_axis_tiles(len as int, t) {
                Ok(n) => r matches Ok(x) && x == n,
                Err(e) => r == Err::<usize, Error>(e),
            },
    {
        let size: u32 = len as u32;
        let tile: u32 = if t.tile_size < size { t.tile_size } else { size };
        if tile <= t.overlap || size <= t.overlap {
            return Err(Error::InvalidData("eICCI: tile not larger than its overlap"));
        }
        Ok(picture::ceil_div(size - t.overlap, tile - t.overlap) as usize)
    }

    /// Number of filter tiles of a picture.
    fn tile_count(height: u32, width: u32, tiling: Option<SynthesisTiling>) -> (r: Result<usize>)
        requires
            height * width <= usize::MAX,
        ensures
            match spec_tile_count(height as int, width as int, tiling) {
                Ok(n) => r matches Ok(x) && x == n,
                Err(e) => r == Err::<usize, Error>(e),
            },
    {
        match tiling {
            None => Ok(1),
            Some(t) => {
                let rows: usize = Self::axis_tiles(height as usize, t)?;
                let cols: usize = Self::axis_tiles(width as usize, t)?;
                proof {
                    lemma_axis_tiles(height as int, t);
                    lemma_axis_tiles(width as int, t);
                    assert(rows * cols <= height * width) by (nonlinear_arith)
                        requires
                            rows <= height,
                            cols <= width,
                    ;
                }
                Ok(rows * cols)
            },
        }
    }

    /// Read eICCI parameters.
    pub fn parse(r: &mut BitReader<'_>, pih: &PictureHeader) -> (v: Result<Self>)
        requires
            old(r).wf(),
            pih.height * pih.width <= usize::MAX,
        ensures
            final(r).follows(old(r)),
            match spec_icci(old(r).bits(), old(r).pos(), pih.height as int, pih.width as int) {
                Ok((h, p)) => v matches Ok(x) && x@ == h && final(r).pos() == p,
                Err(e) => v == Err::<IcciHeader, Error>(e),
            },
    {
        proof {
            reveal(spec_icci);
        }
        let ghost s = r.bits();
        let tiling: Option<SynthesisTiling> = if r.read_bit()? {
            Some(picture::read_tiling(r, "eICCI: tile size is zero")?)
        } else {
            None
        };
        let count: usize = Self::tile_count(pih.height, pih.width, tiling)?;
        if !fits(count, 3, r.bits_left()) {
            return Err(Error::UnexpectedEof);
        }
        let tiles: Vec<IcciTile> = read_icci_tiles(r, count)?;
        Ok(IcciHeader { tiling, tiles })
    }
}

fn read_icci_tiles(r: &mut BitReader<'_>, count: usize) -> (v: Result<Vec<IcciTile>>)
    requires
        old(r).wf(),
    ensures
        final(r).follows(old(r)),
        match spec_icci_tiles(old(r).bits(), old(r).pos(), count as nat, Seq::empty()) {
            Ok((t, p)) => v matches Ok(x) && tile_views(x@) == t && final(r).pos() == p,
            Err(e) => v == Err::<Vec<IcciTile>, Error>(e),
        },
{
    let ghost s = r.bits();
    let ghost pos = r.pos();
    let mut tiles: Vec<IcciTile> = Vec::new();
    let mut i: usize = 0;
    proof {
        assert(tile_views(tiles@) =~= Seq::empty());
    }
    while i < count
        invariant
            i <= count,
            r.follows(old(r)),
            s == old(r).bits(),
            s == r.bits(),
            pos == old(r).pos(),
            spec_icci_tiles(s, pos, count as nat, Seq::empty()) == spec_icci_tiles(
                s,
                r.pos(),
                (count - i) as nat,
                tile_views(tiles@),
            ),
        decreases count - i,
    {
        let t: IcciTile = IcciTile::parse(r)?;
        proof {
            assert(tile_views(tiles@.push(t)) =~= tile_views(tiles@).push(t@));
        }
        tiles.push(t);
        i = i + 1;
    }
    Ok(tiles)
}

/// The bits of a model index, if it is used.
pub open spec fn model_index_code(used: bool, index: u8, short_list: bool) -> Seq<bool> {
    if used {
        bits::low_bits(index as nat, index_width(short_list))
    } else {
        Seq::empty()
    }
}

/// The bits of a tile's model selection.
#[verifier::opaque]
pub open spec fn icci_tile_code(t: IcciTileView) -> Seq<bool> {
    seq![t.y, t.u, t.v] + (if t.y || t.u || t.v {
        seq![t.short_list] + model_index_code(t.y, t.index_y, t.short_list) + model_index_code(
            t.u || t.v,
            t.index_uv,
            t.short_list,
        )
    } else {
        Seq::empty()
    })
}

/// The bits of tiles.
pub open spec fn icci_tiles_code(tiles: Seq<IcciTileView>) -> Seq<bool>
    decreases tiles.len(),
{
    if tiles.len() == 0 {
        Seq::empty()
    } else {
        icci_tiles_code(tiles.drop_last()) + icci_tile_code(tiles.last())
    }
}

/// The bits of eICCI parameters.
#[verifier::opaque]
pub open spec fn icci_code(v: IcciView) -> Seq<bool> {
    picture::tiling_part(v.tiling) + icci_tiles_code(v.tiles)
}

/// A tile's model indices are within their list.
pub open spec fn indices_ok(t: IcciTileView) -> bool {
    &&& t.y ==> t.index_y < model_count(t.short_list)
    &&& t.u || t.v ==> t.index_uv < model_count(t.short_list)
}

/// Why eICCI parameters cannot be written, if they cannot.
pub open spec fn icci_error(v: IcciView, height: int, width: int) -> Option<Error> {
    if v.tiling matches Some(t) && (t.tile_size % 16 != 0 || t.overlap % 16 != 0 || t.tile_size == 0
        || t.tile_size / 16 > 255 || t.overlap / 16 > 31) {
        Some(Error::InvalidArgument("eICCI: tile size/overlap"))
    } else {
        match spec_tile_count(height, width, v.tiling) {
            Err(e) => Some(e),
            Ok(count) => if v.tiles.len() != count {
                Some(Error::InvalidArgument("eICCI: tile count does not match the tiling"))
            } else if exists|i: int| 0 <= i < v.tiles.len() && !indices_ok(#[trigger] v.tiles[i]) {
                Some(Error::InvalidArgument("eICCI: model index out of range"))
            } else {
                None
            },
        }
    }
}

impl IcciTile {
    fn write(&self, w: &mut BitWriter) -> (r: Result<()>)
        requires
            old(w).wf(),
        ensures
            final(w).wf(),
            indices_ok(self@) ==> r is Ok && final(w).bits() == old(w).bits() + icci_tile_code(
                self@,
            ),
            !indices_ok(self@) ==> r == Err::<(), Error>(
                Error::InvalidArgument("eICCI: model index out of range"),
            ),
    {
        proof {
            reveal(icci_tile_code);
        }
        let y: bool = self.use_yuv[0];
        let u: bool = self.use_yuv[1];
        let v: bool = self.use_yuv[2];
        w.write_bit(y);
        w.write_bit(u);
        w.write_bit(v);
        if y || u || v {
            w.write_bit(self.short_list);
            let count: u32 = if self.short_list { ICCI_SHORT_LIST } else { ICCI_MODELS };
            let width: u32 = if self.short_list { 2 } else { 4 };
            if y {
                if self.index_y as u32 >= count {
                    return Err(Error::InvalidArgument("eICCI: model index out of range"));
                }
                w.write_bits(self.index_y as u32, width);
            }
            if u || v {
                if self.index_uv as u32 >= count {
                    return Err(Error::InvalidArgument("eICCI: model index out of range"));
                }
                w.write_bits(self.index_uv as u32, width);
            }
        }
        proof {
            assert(w.bits() =~= old(w).bits() + icci_tile_code(self@));
        }
        Ok(())
    }
}

impl IcciHeader {
    /// Append eICCI parameters.
    pub fn write(&self, w: &mut BitWriter, pih: &PictureHeader) -> (r: Result<()>)
        requires
            old(w).wf(),
            pih.height * pih.width <= usize::MAX,
        ensures
            final(w).wf(),
            match icci_error(self@, pih.height as int, pih.width as int) {
                Some(e) => r == Err::<(), Error>(e),
                None => r is Ok && final(w).bits() == old(w).bits() + icci_code(self@),
            },
    {
        w.write_bit(self.tiling.is_some());
        if let Some(t) = &self.tiling {
            if t.tile_size % 16 != 0 || t.overlap % 16 != 0 || t.tile_size == 0 || t.tile_size / 16
                > 255 || t.overlap / 16 > 31 {
                return Err(Error::InvalidArgument("eICCI: tile size/overlap"));
            }
            picture::write_tiling(w, t);
        }
        let ghost head = w.bits();
        proof {
            assert(head =~= old(w).bits() + picture::tiling_part(self.tiling));
        }
        let count: usize = Self::tile_count(pih.height, pih.width, self.tiling)?;
        if self.tiles.len() != count {
            return Err(Error::InvalidArgument("eICCI: tile count does not match the tiling"));
        }
        let ghost ts = tile_views(self.tiles@);
        let mut i: usize = 0;
        proof {
            assert(icci_tiles_code(ts.take(0)) =~= Seq::empty());
            assert(w.bits() =~= head + icci_tiles_code(ts.take(0)));
        }
        while i < self.tiles.len()
            invariant
                i <= self.tiles@.len(),
                ts == tile_views(self.tiles@),
                ts == self@.tiles,
                ts.len() == self.tiles@.len(),
                w.wf(),
                w.bits() == head + icci_tiles_code(ts.take(i as int)),
                forall|j: int| 0 <= j < i ==> indices_ok(#[trigger] ts[j]),
                !(self.tiling matches Some(t) && (t.tile_size % 16 != 0 || t.overlap % 16 != 0
                    || t.tile_size == 0 || t.tile_size / 16 > 255 || t.overlap / 16 > 31)),
                spec_tile_count(pih.height as int, pih.width as int, self.tiling) == Ok::<int, Error>(
                    ts.len() as int,
                ),
            decreases self.tiles@.len() - i,
        {
            proof {
                assert(ts[i as int] == self.tiles@[i as int]@);
            }
            self.tiles[i].write(w)?;
            proof {
                assert(ts.take(i + 1).drop_last() =~= ts.take(i as int));
                assert(w.bits() =~= head + icci_tiles_code(ts.take(i + 1)));
            }
            i = i + 1;
        }
        proof {
            reveal(icci_code);
            assert(ts.take(i as int) =~= ts);
            assert(w.bits() =~= old(w).bits() + icci_code(self@));
        }
        Ok(())
    }
}

/// What a parsed tile can hold, beyond indices within their list: no index of what is not used.
pub open spec fn icci_tile_codable(t: IcciTileView) -> bool {
    &&& !t.y ==> t.index_y == 0
    &&& !t.u && !t.v ==> t.index_uv == 0
    &&& !t.y && !t.u && !t.v ==> !t.short_list
}

proof fn lemma_read_model_index(s: Seq<bool>, pos: int, used: bool, index: u8, short_list: bool)
    requires
        used ==> index < model_count(short_list),
        !used ==> index == 0,
        bits::has_at(s, pos, model_index_code(used, index, short_list)),
    ensures
        spec_model_index(s, pos, used, short_list) == Ok::<(u8, int), Error>(
            (index, pos + model_index_code(used, index, short_list).len()),
        ),
{
    power2::lemma2_to64();
    if used {
        bitio::lemma_field(s, pos, index as nat, index_width(short_list));
    }
}

proof fn lemma_read_icci_tile(s: Seq<bool>, pos: int, t: IcciTileView)
    requires
        indices_ok(t),
        icci_tile_codable(t),
        bits::has_at(s, pos, icci_tile_code(t)),
    ensures
        spec_icci_tile(s, pos) == Ok::<(IcciTileView, int), Error>(
            (t, pos + icci_tile_code(t).len()),
        ),
        icci_tile_code(t).len() >= 3,
{
    reveal(spec_icci_tile);
    reveal(icci_tile_code);
    let f = seq![t.y, t.u, t.v];
    let l = seq![t.short_list];
    let a = model_index_code(t.y, t.index_y, t.short_list);
    let b = model_index_code(t.u || t.v, t.index_uv, t.short_list);
    let rest = if t.y || t.u || t.v {
        l + a + b
    } else {
        Seq::empty()
    };
    bits::lemma_has_at_concat(s, pos, f, rest);
    assert(s.subrange(pos, pos + 3)[0] == f[0]);
    assert(s.subrange(pos, pos + 3)[1] == f[1]);
    assert(s.subrange(pos, pos + 3)[2] == f[2]);
    if t.y || t.u || t.v {
        bits::lemma_has_at_concat(s, pos + 3, l + a, b);
        bits::lemma_has_at_concat(s, pos + 3, l, a);
        bitio::law_bit_round_trip(s, pos + 3, t.short_list);
        lemma_read_model_index(s, pos + 4, t.y, t.index_y, t.short_list);
        lemma_read_model_index(s, pos + 4 + a.len(), t.u || t.v, t.index_uv, t.short_list);
    }
}

proof fn lemma_icci_tiles_at(s: Seq<bool>, pos: int, ts: Seq<IcciTileView>, i: int)
    requires
        0 <= i <= ts.len(),
        bits::has_at(s, pos, icci_tiles_code(ts)),
    ensures
        bits::has_at(s, pos, icci_tiles_code(ts.take(i))),
        i < ts.len() ==> icci_tiles_code(ts.take(i + 1)) == icci_tiles_code(ts.take(i))
            + icci_tile_code(ts[i]),
        i < ts.len() ==> bits::has_at(
            s,
            pos + icci_tiles_code(ts.take(i)).len(),
            icci_tile_code(ts[i]),
        ),
    decreases ts.len() - i,
{
    if i == ts.len() {
        assert(ts.take(i) =~= ts);
    } else {
        lemma_icci_tiles_at(s, pos, ts, i + 1);
        assert(ts.take(i + 1).drop_last() =~= ts.take(i));
        assert(ts.take(i + 1).last() == ts[i]);
        bits::lemma_has_at_concat(s, pos, icci_tiles_code(ts.take(i)), icci_tile_code(ts[i]));
    }
}

proof fn lemma_read_icci_tiles(s: Seq<bool>, pos: int, ts: Seq<IcciTileView>, i: int)
    requires
        0 <= i <= ts.len(),
        forall|j: int| 0 <= j < ts.len() ==> indices_ok(#[trigger] ts[j]),
        forall|j: int| 0 <= j < ts.len() ==> icci_tile_codable(#[trigger] ts[j]),
        bits::has_at(s, pos, icci_tiles_code(ts)),
    ensures
        spec_icci_tiles(
            s,
            pos + icci_tiles_code(ts.take(i)).len(),
            (ts.len() - i) as nat,
            ts.take(i),
        ) == Ok::<(Seq<IcciTileView>, int), Error>((ts, pos + icci_tiles_code(ts).len())),
        icci_tiles_code(ts).len() >= icci_tiles_code(ts.take(i)).len() + 3 * (ts.len() - i),
    decreases ts.len() - i,
{
    if i == ts.len() {
        assert(ts.take(i) =~= ts);
    } else {
        lemma_icci_tiles_at(s, pos, ts, i);
        assert(indices_ok(ts[i]) && icci_tile_codable(ts[i]));
        lemma_read_icci_tile(s, pos + icci_tiles_code(ts.take(i)).len(), ts[i]);
        assert(ts.take(i).push(ts[i]) =~= ts.take(i + 1));
        lemma_read_icci_tiles(s, pos, ts, i + 1);
    }
}

proof fn lemma_read_icci(s: Seq<bool>, pos: int, v: IcciView, height: int, width: int)
    requires
        0 <= height,
        0 <= width,
        icci_error(v, height, width) is None,
        forall|j: int| 0 <= j < v.tiles.len() ==> icci_tile_codable(#[trigger] v.tiles[j]),
        bits::has_at(s, pos, icci_code(v)),
    ensures
        spec_icci(s, pos, height, width) == Ok::<(IcciView, int), Error>(
            (v, pos + icci_code(v).len()),
        ),
{
    reveal(spec_icci);
    reveal(icci_code);
    let a = picture::tiling_part(v.tiling);
    let b = icci_tiles_code(v.tiles);
    bits::lemma_has_at_concat(s, pos, a, b);
    picture::lemma_read_tiling_part(s, pos, v.tiling, "eICCI: tile size is zero");
    assert forall|j: int| 0 <= j < v.tiles.len() implies indices_ok(#[trigger] v.tiles[j]) by {}
    lemma_read_icci_tiles(s, pos + a.len(), v.tiles, 0);
    assert(v.tiles.take(0) =~= Seq::empty());
}

/// EFE non-linear filter parameters (`EFE_nonlinear_filter_enabled_flag`).
#[derive(Clone, Debug, PartialEq, Eq)]
pub struct EfeNonlinearHeader {
    /// Offset of the coded weight symbols.
    pub min_symbol: u16,
    /// Range of the coded weight symbols.
    pub max_symbol: u16,
    /// Block size and mask rows and columns: present when at least one mask is.
    pub mask_geometry: Option<(u16, u16, u16)>,
    /// Row-major mask values in `0..=2`; `None` = mask disabled.
    pub masks: [Option<Vec<u8>>; 2],
    /// Present when the non-linear filter is on for U or V.
    pub nonlinear: Option<EfeNonlinearTiles>,
}

/// Per-tile luma range gating of the EFE non-linear filter.
#[derive(Clone, Debug, PartialEq, Eq)]
pub struct EfeNonlinearTiles {
    /// Tile width in luma samples.
    pub tile_width: u16,
    /// Tile height in luma samples.
    pub tile_height: u16,
    /// Lowest luma, one per tile.
    pub luma_min: Vec<u16>,
    /// Highest luma, one per tile.
    pub luma_max: Vec<u16>,
    /// Weight codes per plane (`None` = filter off for that plane).
    pub weights: [Option<Vec<u32>>; 2],
}

/// Per-tile parameters as a value.
pub struct NonlinearTilesView {
    pub tile_width: u16,
    pub tile_height: u16,
    pub luma_min: Seq<u16>,
    pub luma_max: Seq<u16>,
    pub weights: (Option<Seq<u32>>, Option<Seq<u32>>),
}

/// EFE non-linear filter parameters as a value.
pub struct NonlinearView {
    pub min_symbol: u16,
    pub max_symbol: u16,
    pub mask_geometry: Option<(u16, u16, u16)>,
    pub masks: (Option<Seq<u8>>, Option<Seq<u8>>),
    pub nonlinear: Option<NonlinearTilesView>,
}

/// An optional list of weights as a value.
pub open spec fn weights_view(v: Option<Vec<u32>>) -> Option<Seq<u32>> {
    match v {
        Some(x) => Some(x@),
        None => None,
    }
}

/// An optional mask as a value.
pub open spec fn mask_view(v: Option<Vec<u8>>) -> Option<Seq<u8>> {
    match v {
        Some(x) => Some(x@),
        None => None,
    }
}

impl View for EfeNonlinearTiles {
    type V = NonlinearTilesView;

    open spec fn view(&self) -> NonlinearTilesView {
        NonlinearTilesView {
            tile_width: self.tile_width,
            tile_height: self.tile_height,
            luma_min: self.luma_min@,
            luma_max: self.luma_max@,
            weights: (weights_view(self.weights@[0]), weights_view(self.weights@[1])),
        }
    }
}

impl View for EfeNonlinearHeader {
    type V = NonlinearView;

    open spec fn view(&self) -> NonlinearView {
        NonlinearView {
            min_symbol: self.min_symbol,
            max_symbol: self.max_symbol,
            mask_geometry: self.mask_geometry,
            masks: (mask_view(self.masks@[0]), mask_view(self.masks@[1])),
            nonlinear: match self.nonlinear {
                Some(t) => Some(t@),
                None => None,
            },
        }
    }
}

impl Default for EfeNonlinearTiles {
    fn default() -> (t: Self)
        ensures
            t@ == (NonlinearTilesView {
                tile_width: 0,
                tile_height: 0,
                luma_min: Seq::empty(),
                luma_max: Seq::empty(),
                weights: (None, None),
            }),
    {
        EfeNonlinearTiles {
            tile_width: 0,
            tile_height: 0,
            luma_min: Vec::new(),
            luma_max: Vec::new(),
            weights: [None, None],
        }
    }
}

impl Default for EfeNonlinearHeader {
    fn default() -> (h: Self)
        ensures
            h@ == (NonlinearView {
                min_symbol: 0,
                max_symbol: 0,
                mask_geometry: None,
                masks: (None, None),
                nonlinear: None,
            }),
    {
        EfeNonlinearHeader {
            min_symbol: 0,
            max_symbol: 0,
            mask_geometry: None,
            masks: [None, None],
            nonlinear: None,
        }
    }
}

/// Symbols as bytes.
pub open spec fn as_bytes(v: Seq<u32>) -> Seq<u8> {
    Seq::new(v.len(), |i: int| v[i] as u8)
}

/// Symbols as 16-bit numbers.
pub open spec fn as_u16s(v: Seq<u32>) -> Seq<u16> {
    Seq::new(v.len(), |i: int| v[i] as u16)
}

/// Bytes as symbols.
pub open spec fn from_bytes(v: Seq<u8>) -> Seq<u32> {
    Seq::new(v.len(), |i: int| v[i] as u32)
}

/// 16-bit numbers as symbols.
pub open spec fn from_u16s(v: Seq<u16>) -> Seq<u32> {
    Seq::new(v.len(), |i: int| v[i] as u32)
}

/// A mask of `n` values at a position, if it is enabled.
#[verifier::opaque]
pub open spec fn spec_mask(s: Seq<bool>, pos: int, enabled: bool, n: nat) -> bitio::Parsed<
    Option<Seq<u8>>,
> {
    if !enabled {
        Ok((None, pos))
    } else {
        match spec_symbols(s, pos, n, 2) {
            Err(e) => Err(e),
            Ok((v, p)) => if !list_within(v, 2) {
                Err(Error::InvalidData("EFE non-linear: mask value above 2"))
            } else {
                Ok((Some(as_bytes(v)), p))
            },
        }
    }
}

/// Both masks and their geometry at a position, if any is enabled.
#[verifier::opaque]
pub open spec fn spec_masks(s: Seq<bool>, pos: int, on: (bool, bool)) -> bitio::Parsed<
    (Option<(u16, u16, u16)>, (Option<Seq<u8>>, Option<Seq<u8>>)),
> {
    if !on.0 && !on.1 {
        Ok(((None, (None, None)), pos))
    } else if pos + 30 > s.len() {
        Err(Error::UnexpectedEof)
    } else {
        let rows = bitio::field(s, pos + 10, 10) as u16;
        let cols = bitio::field(s, pos + 20, 10) as u16;
        let n = (rows * cols) as nat;
        match spec_mask(s, pos + 30, on.0, n) {
            Err(e) => Err(e),
            Ok((first, p)) => match spec_mask(s, p, on.1, n) {
                Err(e) => Err(e),
                Ok((second, q)) => Ok(
                    (
                        (Some((bitio::field(s, pos, 10) as u16, rows, cols)), (first, second)),
                        q,
                    ),
                ),
            },
        }
    }
}

/// A counted list of weights at a position, if it is enabled.
#[verifier::opaque]
pub open spec fn spec_weight_list(s: Seq<bool>, pos: int, enabled: bool, max_symbol: nat)
    -> bitio::Parsed<Option<Seq<u32>>> {
    if !enabled {
        Ok((None, pos))
    } else if pos + 16 > s.len() {
        Err(Error::UnexpectedEof)
    } else {
        match spec_symbols(s, pos + 16, bitio::field(s, pos, 16) as nat, max_symbol) {
            Err(e) => Err(e),
            Ok((v, p)) => Ok((Some(v), p)),
        }
    }
}

/// The per-tile parameters at a position.
#[verifier::opaque]
pub open spec fn spec_nonlinear_tiles(s: Seq<bool>, pos: int, on: (bool, bool), max_symbol: nat)
    -> bitio::Parsed<NonlinearTilesView> {
    if pos + 48 > s.len() {
        Err(Error::UnexpectedEof)
    } else {
        let tiles = bitio::field(s, pos + 32, 16) as nat;
        match spec_symbols(s, pos + 48, tiles, 65535) {
            Err(e) => Err(e),
            Ok((low, p1)) => match spec_symbols(s, p1, tiles, 65535) {
                Err(e) => Err(e),
                Ok((high, p2)) => match spec_weight_list(s, p2, on.0, max_symbol) {
                    Err(e) => Err(e),
                    Ok((first, p3)) => match spec_weight_list(s, p3, on.1, max_symbol) {
                        Err(e) => Err(e),
                        Ok((second, p4)) => Ok(
                            (
                                NonlinearTilesView {
                                    tile_width: bitio::field(s, pos, 16) as u16,
                                    tile_height: bitio::field(s, pos + 16, 16) as u16,
                                    luma_min: as_u16s(low),
                                    luma_max: as_u16s(high),
                                    weights: (first, second),
                                },
                                p4,
                            ),
                        ),
                    },
                },
            },
        }
    }
}

/// EFE non-linear filter parameters at a position.
#[verifier::opaque]
pub open spec fn spec_nonlinear(s: Seq<bool>, pos: int) -> bitio::Parsed<NonlinearView> {
    if pos + 34 > s.len() {
        Err(Error::UnexpectedEof)
    } else {
        let min_symbol = bitio::field(s, pos, 16) as u16;
        let max_symbol = bitio::field(s, pos + 16, 16) as u16;
        match spec_masks(s, pos + 34, (s[pos + 32], s[pos + 33])) {
            Err(e) => Err(e),
            Ok(((mask_geometry, masks), p)) => if p + 2 > s.len() {
                Err(Error::UnexpectedEof)
            } else if !s[p] && !s[p + 1] {
                Ok(
                    (
                        NonlinearView {
                            min_symbol,
                            max_symbol,
                            mask_geometry,
                            masks,
                            nonlinear: None,
                        },
                        p + 2,
                    ),
                )
            } else {
                match spec_nonlinear_tiles(s, p + 2, (s[p], s[p + 1]), max_symbol as nat) {
                    Err(e) => Err(e),
                    Ok((t, q)) => Ok(
                        (
                            NonlinearView {
                                min_symbol,
                                max_symbol,
                                mask_geometry,
                                masks,
                                nonlinear: Some(t),
                            },
                            q,
                        ),
                    ),
                }
            },
        }
    }
}

fn narrow_to_bytes(v: &Vec<u32>) -> (out: Vec<u8>)
    ensures
        out@ == as_bytes(v@),
{
    let mut out: Vec<u8> = Vec::new();
    let mut i: usize = 0;
    while i < v.len()
        invariant
            i <= v@.len(),
            out@.len() == i,
            forall|j: int| 0 <= j < i ==> #[trigger] out@[j] == v@[j] as u8,
        decreases v@.len() - i,
    {
        out.push(#[verifier::truncate] (v[i] as u8));
        i = i + 1;
    }
    proof {
        assert(out@ =~= as_bytes(v@));
    }
    out
}

fn narrow_to_u16s(v: &Vec<u32>) -> (out: Vec<u16>)
    ensures
        out@ == as_u16s(v@),
{
    let mut out: Vec<u16> = Vec::new();
    let mut i: usize = 0;
    while i < v.len()
        invariant
            i <= v@.len(),
            out@.len() == i,
            forall|j: int| 0 <= j < i ==> #[trigger] out@[j] == v@[j] as u16,
        decreases v@.len() - i,
    {
        out.push(#[verifier::truncate] (v[i] as u16));
        i = i + 1;
    }
    proof {
        assert(out@ =~= as_u16s(v@));
    }
    out
}

fn widen_bytes(v: &Vec<u8>) -> (out: Vec<u32>)
    ensures
        out@ == from_bytes(v@),
{
    let mut out: Vec<u32> = Vec::new();
    let mut i: usize = 0;
    while i < v.len()
        invariant
            i <= v@.len(),
            out@.len() == i,
            forall|j: int| 0 <= j < i ==> #[trigger] out@[j] == v@[j] as u32,
        decreases v@.len() - i,
    {
        out.push(v[i] as u32);
        i = i + 1;
    }
    proof {
        assert(out@ =~= from_bytes(v@));
    }
    out
}

fn widen_u16s(v: &Vec<u16>) -> (out: Vec<u32>)
    ensures
        out@ == from_u16s(v@),
{
    let mut out: Vec<u32> = Vec::new();
    let mut i: usize = 0;
    while i < v.len()
        invariant
            i <= v@.len(),
            out@.len() == i,
            forall|j: int| 0 <= j < i ==> #[trigger] out@[j] == v@[j] as u32,
        decreases v@.len() - i,
    {
        out.push(v[i] as u32);
        i = i + 1;
    }
    proof {
        assert(out@ =~= from_u16s(v@));
    }
    out
}

fn read_mask(r: &mut BitReader<'_>, enabled: bool, n: usize) -> (v: Result<Option<Vec<u8>>>)
    requires
        old(r).wf(),
    ensures
        final(r).follows(old(r)),
        match spec_mask(old(r).bits(), old(r).pos(), enabled, n as nat) {
            Ok((m, p)) => v matches Ok(x) && mask_view(x) == m && final(r).pos() == p,
            Err(e) => v == Err::<Option<Vec<u8>>, Error>(e),
        },
{
    proof {
        reveal(spec_mask);
    }
    if !enabled {
        return Ok(None);
    }
    let v: Vec<u32> = read_symbols(r, n, 2)?;
    if !within(&v, 2) {
        return Err(Error::InvalidData("EFE non-linear: mask value above 2"));
    }
    Ok(Some(narrow_to_bytes(&v)))
}

/// The masks and their geometry.
fn read_masks(r: &mut BitReader<'_>, on: (bool, bool)) -> (v: Result<
    (Option<(u16, u16, u16)>, [Option<Vec<u8>>; 2]),
>)
    requires
        old(r).wf(),
    ensures
        final(r).follows(old(r)),
        match spec_masks(old(r).bits(), old(r).pos(), on) {
            Ok((m, p)) => v matches Ok(x) && x.0 == m.0 && mask_view(x.1@[0]) == m.1.0 && mask_view(
                x.1@[1],
            ) == m.1.1 && final(r).pos() == p,
            Err(e) => v == Err::<(Option<(u16, u16, u16)>, [Option<Vec<u8>>; 2]), Error>(e),
        },
{
    proof {
        reveal(spec_masks);
        bitio::lemma_widths();
        power2::lemma2_to64();
    }
    if !on.0 && !on.1 {
        return Ok((None, [None, None]));
    }
    let block: u16 = r.read_bounded(1023)? as u16;
    let rows: u16 = r.read_bounded(1023)? as u16;
    let cols: u16 = r.read_bounded(1023)? as u16;
    proof {
        assert(rows * cols <= 1023 * 1023) by (nonlinear_arith)
            requires
                rows <= 1023,
                cols <= 1023,
        ;
    }
    let n: usize = rows as usize * cols as usize;
    let first = read_mask(r, on.0, n)?;
    let second = read_mask(r, on.1, n)?;
    Ok((Some((block, rows, cols)), [first, second]))
}

fn read_weight_list(r: &mut BitReader<'_>, enabled: bool, max_symbol: u32) -> (v: Result<
    Option<Vec<u32>>,
>)
    requires
        old(r).wf(),
    ensures
        final(r).follows(old(r)),
        match spec_weight_list(old(r).bits(), old(r).pos(), enabled, max_symbol as nat) {
            Ok((m, p)) => v matches Ok(x) && weights_view(x) == m && final(r).pos() == p,
            Err(e) => v == Err::<Option<Vec<u32>>, Error>(e),
        },
{
    proof {
        reveal(spec_weight_list);
        bitio::lemma_widths();
    }
    if !enabled {
        return Ok(None);
    }
    let n: u32 = r.read_bounded(65535)?;
    Ok(Some(read_symbols(r, n as usize, max_symbol)?))
}

impl EfeNonlinearTiles {
    fn parse(r: &mut BitReader<'_>, on: (bool, bool), max_symbol: u32) -> (v: Result<Self>)
        requires
            old(r).wf(),
        ensures
            final(r).follows(old(r)),
            match spec_nonlinear_tiles(old(r).bits(), old(r).pos(), on, max_symbol as nat) {
                Ok((t, p)) => v matches Ok(x) && x@ == t && final(r).pos() == p,
                Err(e) => v == Err::<EfeNonlinearTiles, Error>(e),
            },
    {
        proof {
            reveal(spec_nonlinear_tiles);
            bitio::lemma_widths();
        }
        let tile_width: u16 = r.read_bounded(65535)? as u16;
        let tile_height: u16 = r.read_bounded(65535)? as u16;
        let tiles: usize = r.read_bounded(65535)? as usize;
        let low: Vec<u32> = read_symbols(r, tiles, 65535)?;
        let high: Vec<u32> = read_symbols(r, tiles, 65535)?;
        let first = read_weight_list(r, on.0, max_symbol)?;
        let second = read_weight_list(r, on.1, max_symbol)?;
        Ok(
            EfeNonlinearTiles {
                tile_width,
                tile_height,
                luma_min: narrow_to_u16s(&low),
                luma_max: narrow_to_u16s(&high),
                weights: [first, second],
            },
        )
    }
}

impl EfeNonlinearHeader {
    /// Read EFE non-linear filter parameters.
    pub fn parse(r: &mut BitReader<'_>) -> (v: Result<Self>)
        requires
            old(r).wf(),
        ensures
            final(r).follows(old(r)),
            match spec_nonlinear(old(r).bits(), old(r).pos()) {
                Ok((t, p)) => v matches Ok(x) && x@ == t && final(r).pos() == p,
                Err(e) => v == Err::<EfeNonlinearHeader, Error>(e),
            },
    {
        proof {
            reveal(spec_nonlinear);
            bitio::lemma_widths();
        }
        let min_symbol: u16 = r.read_bounded(65535)? as u16;
        let max_symbol: u16 = r.read_bounded(65535)? as u16;
        let on0: bool = r.read_bit()?;
        let on1: bool = r.read_bit()?;
        let (mask_geometry, masks) = read_masks(r, (on0, on1))?;
        let filt0: bool = r.read_bit()?;
        let filt1: bool = r.read_bit()?;
        let nonlinear: Option<EfeNonlinearTiles> = if filt0 || filt1 {
            Some(EfeNonlinearTiles::parse(r, (filt0, filt1), max_symbol as u32)?)
        } else {
            None
        };
        Ok(EfeNonlinearHeader { min_symbol, max_symbol, mask_geometry, masks, nonlinear })
    }
}

/// The bits of a mask, if there is one.
pub open spec fn mask_code(m: Option<Seq<u8>>) -> Seq<bool> {
    match m {
        Some(x) => symbols_code(from_bytes(x), 2),
        None => Seq::empty(),
    }
}

/// The bits of the masks and their geometry, if there is a mask.
#[verifier::opaque]
pub open spec fn masks_code(v: NonlinearView) -> Seq<bool> {
    if v.masks.0 is None && v.masks.1 is None {
        Seq::empty()
    } else {
        let g = v.mask_geometry->0;
        bits::low_bits(g.0 as nat, 10) + bits::low_bits(g.1 as nat, 10) + bits::low_bits(
            g.2 as nat,
            10,
        ) + mask_code(v.masks.0) + mask_code(v.masks.1)
    }
}

/// The bits of a counted list of weights, if there is one.
pub open spec fn weight_list_code(w: Option<Seq<u32>>, width: nat) -> Seq<bool> {
    match w {
        Some(x) => bits::low_bits(x.len(), 16) + symbols_code(x, width),
        None => Seq::empty(),
    }
}

/// The bits of per-tile parameters.
#[verifier::opaque]
pub open spec fn nonlinear_tiles_code(t: NonlinearTilesView, width: nat) -> Seq<bool> {
    bits::low_bits(t.tile_width as nat, 16) + bits::low_bits(t.tile_height as nat, 16)
        + bits::low_bits(t.luma_min.len(), 16) + symbols_code(from_u16s(t.luma_min), 16)
        + symbols_code(from_u16s(t.luma_max), 16) + weight_list_code(t.weights.0, width)
        + weight_list_code(t.weights.1, width)
}

/// Which planes have weights.
pub open spec fn planes_on(v: NonlinearView) -> (bool, bool) {
    match v.nonlinear {
        Some(t) => (t.weights.0 is Some, t.weights.1 is Some),
        None => (false, false),
    }
}

/// The bits of EFE non-linear filter parameters.
#[verifier::opaque]
pub open spec fn nonlinear_code(v: NonlinearView) -> Seq<bool> {
    let on = planes_on(v);
    bits::low_bits(v.min_symbol as nat, 16) + bits::low_bits(v.max_symbol as nat, 16)
        + seq![v.masks.0 is Some, v.masks.1 is Some] + masks_code(v) + seq![on.0, on.1] + (if on.0
        || on.1 {
        nonlinear_tiles_code(v.nonlinear->0, bitio::bit_width(v.max_symbol as nat))
    } else {
        Seq::empty()
    })
}

/// No mask value is above two.
pub open spec fn mask_within(m: Seq<u8>) -> bool {
    forall|i: int| 0 <= i < m.len() ==> #[trigger] m[i] <= 2
}

/// A mask has one value in `0..=2` for each of `n` blocks.
pub open spec fn mask_ok(m: Option<Seq<u8>>, n: nat) -> bool {
    m matches Some(x) ==> x.len() == n && mask_within(x)
}

/// A list of weights can be counted in 16 bits and none is above `max`.
pub open spec fn weight_list_ok(w: Option<Seq<u32>>, max: nat) -> bool {
    w matches Some(x) ==> x.len() <= 65535 && list_within(x, max)
}

/// Why EFE non-linear filter parameters cannot be written, if they cannot.
pub open spec fn nonlinear_error(v: NonlinearView) -> Option<Error> {
    let masked = v.masks.0 is Some || v.masks.1 is Some;
    let g = v.mask_geometry->0;
    let n = (g.1 * g.2) as nat;
    let t = v.nonlinear->0;
    let max = v.max_symbol as nat;
    let on = planes_on(v);
    if masked && v.mask_geometry is None {
        Some(Error::InvalidArgument("EFE non-linear: masks without geometry"))
    } else if masked && !(g.0 <= 1023 && g.1 <= 1023 && g.2 <= 1023) {
        Some(Error::InvalidArgument("EFE non-linear: mask geometry out of range"))
    } else if masked && !(mask_ok(v.masks.0, n) && mask_ok(v.masks.1, n)) {
        Some(Error::InvalidArgument("EFE non-linear: mask shape or value"))
    } else if (on.0 || on.1) && (t.luma_min.len() != t.luma_max.len() || t.luma_min.len() > 65535) {
        Some(Error::InvalidArgument("EFE non-linear: tile list shape"))
    } else if (on.0 || on.1) && !(weight_list_ok(t.weights.0, max) && weight_list_ok(
        t.weights.1,
        max,
    )) {
        Some(Error::InvalidArgument("EFE non-linear: weight list"))
    } else {
        None
    }
}

/// Whether every mask value is at most two.
fn mask_values_ok(m: &Vec<u8>) -> (b: bool)
    ensures
        b == mask_within(m@),
{
    let mut i: usize = 0;
    while i < m.len()
        invariant
            i <= m@.len(),
            forall|j: int| 0 <= j < i ==> #[trigger] m@[j] <= 2,
        decreases m@.len() - i,
    {
        if m[i] > 2 {
            return false;
        }
        i = i + 1;
    }
    true
}

fn write_mask(w: &mut BitWriter, m: &Option<Vec<u8>>, n: usize) -> (r: Result<()>)
    requires
        old(w).wf(),
    ensures
        final(w).wf(),
        mask_ok(mask_view(*m), n as nat) ==> r is Ok && final(w).bits() == old(w).bits()
            + mask_code(mask_view(*m)),
        !mask_ok(mask_view(*m), n as nat) ==> r == Err::<(), Error>(
            Error::InvalidArgument("EFE non-linear: mask shape or value"),
        ),
{
    match m {
        None => {
            proof {
                assert(w.bits() =~= w.bits() + Seq::empty());
            }
        },
        Some(x) => {
            if x.len() != n || !mask_values_ok(x) {
                return Err(Error::InvalidArgument("EFE non-linear: mask shape or value"));
            }
            let v: Vec<u32> = widen_bytes(x);
            write_symbols(w, &v, 2);
        },
    }
    Ok(())
}

fn write_weight_list(w: &mut BitWriter, m: &Option<Vec<u32>>, max: u32) -> (r: Result<()>)
    requires
        old(w).wf(),
    ensures
        final(w).wf(),
        weight_list_ok(weights_view(*m), max as nat) ==> r is Ok && final(w).bits()
            == old(w).bits() + weight_list_code(weights_view(*m), bitio::bit_width(max as nat)),
        !weight_list_ok(weights_view(*m), max as nat) ==> r == Err::<(), Error>(
            Error::InvalidArgument("EFE non-linear: weight list"),
        ),
{
    match m {
        None => {
            proof {
                assert(w.bits() =~= w.bits() + Seq::empty());
            }
        },
        Some(x) => {
            if x.len() > 65535 || !within(x, max) {
                return Err(Error::InvalidArgument("EFE non-linear: weight list"));
            }
            let width: u32 = bitio::bits_for_max(max);
            w.write_bits(x.len() as u32, 16);
            write_symbols(w, x, width);
            proof {
                let a = bits::low_bits(x@.len(), 16);
                let b = symbols_code(x@, width as nat);
                assert(old(w).bits() + a + b =~= old(w).bits() + (a + b));
            }
        },
    }
    Ok(())
}

impl EfeNonlinearTiles {
    fn write(&self, w: &mut BitWriter, max: u32) -> (r: Result<()>)
        requires
            old(w).wf(),
        ensures
            final(w).wf(),
            self@.luma_min.len() != self@.luma_max.len() || self@.luma_min.len() > 65535 ==> r
                == Err::<(), Error>(Error::InvalidArgument("EFE non-linear: tile list shape")),
            self@.luma_min.len() == self@.luma_max.len() && self@.luma_min.len() <= 65535 && !(
            weight_list_ok(self@.weights.0, max as nat) && weight_list_ok(
                self@.weights.1,
                max as nat,
            )) ==> r == Err::<(), Error>(Error::InvalidArgument("EFE non-linear: weight list")),
            self@.luma_min.len() == self@.luma_max.len() && self@.luma_min.len() <= 65535
                && weight_list_ok(self@.weights.0, max as nat) && weight_list_ok(
                self@.weights.1,
                max as nat,
            ) ==> r is Ok && final(w).bits() == old(w).bits() + nonlinear_tiles_code(
                self@,
                bitio::bit_width(max as nat),
            ),
    {
        if self.luma_min.len() != self.luma_max.len() || self.luma_min.len() > 65535 {
            return Err(Error::InvalidArgument("EFE non-linear: tile list shape"));
        }
        w.write_bits(self.tile_width as u32, 16);
        w.write_bits(self.tile_height as u32, 16);
        w.write_bits(self.luma_min.len() as u32, 16);
        let low: Vec<u32> = widen_u16s(&self.luma_min);
        let high: Vec<u32> = widen_u16s(&self.luma_max);
        write_symbols(w, &low, 16);
        write_symbols(w, &high, 16);
        write_weight_list(w, &self.weights[0], max)?;
        write_weight_list(w, &self.weights[1], max)?;
        proof {
            reveal(nonlinear_tiles_code);
            assert(w.bits() =~= old(w).bits() + nonlinear_tiles_code(
                self@,
                bitio::bit_width(max as nat),
            ));
        }
        Ok(())
    }
}

impl EfeNonlinearHeader {
    /// Append the masks and their geometry.
    fn write_masks(&self, w: &mut BitWriter) -> (r: Result<()>)
        requires
            old(w).wf(),
        ensures
            final(w).wf(),
            ({
                let v = self@;
                let masked = v.masks.0 is Some || v.masks.1 is Some;
                let g = v.mask_geometry->0;
                let n = (g.1 * g.2) as nat;
                if masked && v.mask_geometry is None {
                    r == Err::<(), Error>(
                        Error::InvalidArgument("EFE non-linear: masks without geometry"),
                    )
                } else if masked && !(g.0 <= 1023 && g.1 <= 1023 && g.2 <= 1023) {
                    r == Err::<(), Error>(
                        Error::InvalidArgument("EFE non-linear: mask geometry out of range"),
                    )
                } else if masked && !(mask_ok(v.masks.0, n) && mask_ok(v.masks.1, n)) {
                    r == Err::<(), Error>(
                        Error::InvalidArgument("EFE non-linear: mask shape or value"),
                    )
                } else {
                    r is Ok && final(w).bits() == old(w).bits() + masks_code(v)
                }
            }),
    {
        proof {
            reveal(masks_code);
        }
        if self.masks[0].is_none() && self.masks[1].is_none() {
            proof {
                assert(w.bits() =~= w.bits() + Seq::empty());
            }
            return Ok(());
        }
        let (block, rows, cols): (u16, u16, u16) = match self.mask_geometry {
            Some(g) => g,
            None => {
                return Err(Error::InvalidArgument("EFE non-linear: masks without geometry"));
            },
        };
        if block > 1023 || rows > 1023 || cols > 1023 {
            return Err(Error::InvalidArgument("EFE non-linear: mask geometry out of range"));
        }
        proof {
            assert(rows * cols <= 1023 * 1023) by (nonlinear_arith)
                requires
                    rows <= 1023,
                    cols <= 1023,
            ;
        }
        let n: usize = rows as usize * cols as usize;
        w.write_bits(block as u32, 10);
        w.write_bits(rows as u32, 10);
        w.write_bits(cols as u32, 10);
        write_mask(w, &self.masks[0], n)?;
        write_mask(w, &self.masks[1], n)?;
        proof {
            assert(w.bits() =~= old(w).bits() + masks_code(self@));
        }
        Ok(())
    }

    /// Append EFE non-linear filter parameters.
    pub fn write(&self, w: &mut BitWriter) -> (r: Result<()>)
        requires
            old(w).wf(),
        ensures
            final(w).wf(),
            match nonlinear_error(self@) {
                Some(e) => r == Err::<(), Error>(e),
                None => r is Ok && final(w).bits() == old(w).bits() + nonlinear_code(self@),
            },
    {
        let ghost base = w.bits();
        w.write_bits(self.min_symbol as u32, 16);
        w.write_bits(self.max_symbol as u32, 16);
        let ghost b2 = w.bits();
        w.write_bit(self.masks[0].is_some());
        w.write_bit(self.masks[1].is_some());
        proof {
            assert(w.bits() =~= b2 + seq![self@.masks.0 is Some, self@.masks.1 is Some]);
        }
        self.write_masks(w)?;
        let (on0, on1): (bool, bool) = match &self.nonlinear {
            Some(t) => (t.weights[0].is_some(), t.weights[1].is_some()),
            None => (false, false),
        };
        let ghost b4 = w.bits();
        w.write_bit(on0);
        w.write_bit(on1);
        proof {
            assert((on0, on1) == planes_on(self@));
            assert(w.bits() =~= b4 + seq![on0, on1]);
        }
        let ghost b5 = w.bits();
        if let Some(t) = &self.nonlinear {
            if on0 || on1 {
                t.write(w, self.max_symbol as u32)?;
            } else {
                proof {
                    assert(w.bits() =~= b5 + Seq::empty());
                }
            }
        } else {
            proof {
                assert(w.bits() =~= b5 + Seq::empty());
            }
        }
        proof {
            reveal(nonlinear_code);
            picture::lemma_concat6(
                base,
                bits::low_bits(self.min_symbol as nat, 16),
                bits::low_bits(self.max_symbol as nat, 16),
                seq![self@.masks.0 is Some, self@.masks.1 is Some],
                masks_code(self@),
                seq![on0, on1],
                if on0 || on1 {
                    nonlinear_tiles_code(
                        self@.nonlinear->0,
                        bitio::bit_width(self.max_symbol as nat),
                    )
                } else {
                    Seq::empty()
                },
            );
        }
        Ok(())
    }
}

/// What parsed EFE non-linear parameters can hold, beyond what [`nonlinear_error`] asks for: a
/// geometry exactly with a mask, and per-tile parameters only with weights.
pub open spec fn nonlinear_codable(v: NonlinearView) -> bool {
    &&& v.mask_geometry is Some == (v.masks.0 is Some || v.masks.1 is Some)
    &&& v.nonlinear is Some ==> planes_on(v).0 || planes_on(v).1
}

proof fn lemma_read_mask(s: Seq<bool>, pos: int, m: Option<Seq<u8>>, n: nat)
    requires
        mask_ok(m, n),
        bits::has_at(s, pos, mask_code(m)),
    ensures
        spec_mask(s, pos, m is Some, n) == Ok::<(Option<Seq<u8>>, int), Error>(
            (m, pos + mask_code(m).len()),
        ),
{
    reveal(spec_mask);
    bitio::lemma_widths();
    match m {
        None => {},
        Some(x) => {
            let v = from_bytes(x);
            assert forall|j: int| 0 <= j < v.len() implies #[trigger] v[j] <= 2 by {
                assert(x[j] <= 2);
            }
            lemma_read_symbols(s, pos, v, 2);
            assert(as_bytes(v) =~= x);
        },
    }
}

proof fn lemma_read_masks(s: Seq<bool>, pos: int, v: NonlinearView)
    requires
        nonlinear_error(v) is None,
        nonlinear_codable(v),
        bits::has_at(s, pos, masks_code(v)),
    ensures
        spec_masks(s, pos, (v.masks.0 is Some, v.masks.1 is Some)) == Ok::<
            ((Option<(u16, u16, u16)>, (Option<Seq<u8>>, Option<Seq<u8>>)), int),
            Error,
        >(((v.mask_geometry, v.masks), pos + masks_code(v).len())),
{
    reveal(spec_masks);
    reveal(masks_code);
    power2::lemma2_to64();
    if v.masks.0 is Some || v.masks.1 is Some {
        let g = v.mask_geometry->0;
        let n = (g.1 * g.2) as nat;
        let a = bits::low_bits(g.0 as nat, 10);
        let b = bits::low_bits(g.1 as nat, 10);
        let c = bits::low_bits(g.2 as nat, 10);
        let d = mask_code(v.masks.0);
        let e = mask_code(v.masks.1);
        bits::lemma_has_at_concat(s, pos, a + b + c + d, e);
        bits::lemma_has_at_concat(s, pos, a + b + c, d);
        bits::lemma_has_at_concat(s, pos, a + b, c);
        bits::lemma_has_at_concat(s, pos, a, b);
        bitio::lemma_field(s, pos, g.0 as nat, 10);
        bitio::lemma_field(s, pos + 10, g.1 as nat, 10);
        bitio::lemma_field(s, pos + 20, g.2 as nat, 10);
        lemma_read_mask(s, pos + 30, v.masks.0, n);
        lemma_read_mask(s, pos + 30 + d.len(), v.masks.1, n);
    }
}

proof fn lemma_read_weight_list(s: Seq<bool>, pos: int, w: Option<Seq<u32>>, max: nat)
    requires
        max <= u32::MAX,
        weight_list_ok(w, max),
        bits::has_at(s, pos, weight_list_code(w, bitio::bit_width(max))),
    ensures
        spec_weight_list(s, pos, w is Some, max) == Ok::<(Option<Seq<u32>>, int), Error>(
            (w, pos + weight_list_code(w, bitio::bit_width(max)).len()),
        ),
{
    reveal(spec_weight_list);
    power2::lemma2_to64();
    match w {
        None => {},
        Some(x) => {
            let a = bits::low_bits(x.len(), 16);
            let b = symbols_code(x, bitio::bit_width(max));
            bits::lemma_has_at_concat(s, pos, a, b);
            bitio::lemma_field(s, pos, x.len(), 16);
            lemma_read_symbols(s, pos + 16, x, max);
        },
    }
}

/// 16-bit numbers that were written as symbols read back.
proof fn lemma_read_u16s(s: Seq<bool>, pos: int, x: Seq<u16>)
    requires
        bits::has_at(s, pos, symbols_code(from_u16s(x), 16)),
    ensures
        spec_symbols(s, pos, x.len(), 65535) == Ok::<(Seq<u32>, int), Error>(
            (from_u16s(x), pos + symbols_code(from_u16s(x), 16).len()),
        ),
        as_u16s(from_u16s(x)) == x,
{
    bitio::lemma_widths();
    lemma_read_symbols(s, pos, from_u16s(x), 65535);
    assert(as_u16s(from_u16s(x)) =~= x);
}

proof fn lemma_read_nonlinear_tiles(s: Seq<bool>, pos: int, t: NonlinearTilesView, max: nat)
    requires
        max <= u32::MAX,
        t.luma_min.len() == t.luma_max.len(),
        t.luma_min.len() <= 65535,
        weight_list_ok(t.weights.0, max),
        weight_list_ok(t.weights.1, max),
        bits::has_at(s, pos, nonlinear_tiles_code(t, bitio::bit_width(max))),
    ensures
        spec_nonlinear_tiles(s, pos, (t.weights.0 is Some, t.weights.1 is Some), max) == Ok::<
            (NonlinearTilesView, int),
            Error,
        >((t, pos + nonlinear_tiles_code(t, bitio::bit_width(max)).len())),
{
    reveal(spec_nonlinear_tiles);
    reveal(nonlinear_tiles_code);
    power2::lemma2_to64();
    let width = bitio::bit_width(max);
    let a = bits::low_bits(t.tile_width as nat, 16);
    let b = bits::low_bits(t.tile_height as nat, 16);
    let c = bits::low_bits(t.luma_min.len(), 16);
    let d = symbols_code(from_u16s(t.luma_min), 16);
    let e = symbols_code(from_u16s(t.luma_max), 16);
    let f = weight_list_code(t.weights.0, width);
    let g = weight_list_code(t.weights.1, width);
    bits::lemma_has_at_concat(s, pos, a + b + c + d + e + f, g);
    bits::lemma_has_at_concat(s, pos, a + b + c + d + e, f);
    bits::lemma_has_at_concat(s, pos, a + b + c + d, e);
    bits::lemma_has_at_concat(s, pos, a + b + c, d);
    bits::lemma_has_at_concat(s, pos, a + b, c);
    bits::lemma_has_at_concat(s, pos, a, b);
    bitio::lemma_field(s, pos, t.tile_width as nat, 16);
    bitio::lemma_field(s, pos + 16, t.tile_height as nat, 16);
    bitio::lemma_field(s, pos + 32, t.luma_min.len(), 16);
    let p1 = pos + 48 + d.len();
    let p2 = p1 + e.len();
    let p3 = p2 + f.len();
    lemma_read_u16s(s, pos + 48, t.luma_min);
    lemma_read_u16s(s, p1, t.luma_max);
    lemma_read_weight_list(s, p2, t.weights.0, max);
    lemma_read_weight_list(s, p3, t.weights.1, max);
}

proof fn lemma_read_nonlinear(s: Seq<bool>, pos: int, v: NonlinearView)
    requires
        nonlinear_error(v) is None,
        nonlinear_codable(v),
        bits::has_at(s, pos, nonlinear_code(v)),
    ensures
        spec_nonlinear(s, pos) == Ok::<(NonlinearView, int), Error>(
            (v, pos + nonlinear_code(v).len()),
        ),
{
    reveal(spec_nonlinear);
    reveal(nonlinear_code);
    power2::lemma2_to64();
    let on = planes_on(v);
    let a = bits::low_bits(v.min_symbol as nat, 16);
    let b = bits::low_bits(v.max_symbol as nat, 16);
    let c = seq![v.masks.0 is Some, v.masks.1 is Some];
    let d = masks_code(v);
    let e = seq![on.0, on.1];
    let f = if on.0 || on.1 {
        nonlinear_tiles_code(v.nonlinear->0, bitio::bit_width(v.max_symbol as nat))
    } else {
        Seq::empty()
    };
    bits::lemma_has_at_concat(s, pos, a + b + c + d + e, f);
    bits::lemma_has_at_concat(s, pos, a + b + c + d, e);
    bits::lemma_has_at_concat(s, pos, a + b + c, d);
    bits::lemma_has_at_concat(s, pos, a + b, c);
    bits::lemma_has_at_concat(s, pos, a, b);
    bitio::lemma_field(s, pos, v.min_symbol as nat, 16);
    bitio::lemma_field(s, pos + 16, v.max_symbol as nat, 16);
    assert(s.subrange(pos + 32, pos + 34)[0] == c[0]);
    assert(s.subrange(pos + 32, pos + 34)[1] == c[1]);
    lemma_read_masks(s, pos + 34, v);
    let p = pos + 34 + d.len();
    assert(s.subrange(p, p + 2)[0] == e[0]);
    assert(s.subrange(p, p + 2)[1] == e[1]);
    if on.0 || on.1 {
        lemma_read_nonlinear_tiles(s, p + 2, v.nonlinear->0, v.max_symbol as nat);
    }
}

/// Decoded tool header. Absent substream == everything off.
#[derive(Clone, Debug, PartialEq, Eq)]
pub struct ToolHeader {
    /// Latent scaling before synthesis, per component.
    pub lsbs_enabled: [bool; 2],
    /// EFE linear filter parameters, if enabled.
    pub efe_linear: Option<EfeLinearHeader>,
    /// eICCI parameters, if enabled.
    pub icci: Option<IcciHeader>,
    /// EFE non-linear filter parameters, if enabled.
    pub efe_nonlinear: Option<EfeNonlinearHeader>,
    /// The latent channel whose scale map steers the LEF.
    pub lef_channel: Option<u8>,
}

/// A tool header as a value.
pub struct ToolView {
    pub lsbs_enabled: (bool, bool),
    pub efe_linear: Option<EfeLinearView>,
    pub icci: Option<IcciView>,
    pub efe_nonlinear: Option<NonlinearView>,
    pub lef_channel: Option<u8>,
}

impl View for ToolHeader {
    type V = ToolView;

    open spec fn view(&self) -> ToolView {
        ToolView {
            lsbs_enabled: (self.lsbs_enabled@[0], self.lsbs_enabled@[1]),
            efe_linear: match self.efe_linear {
                Some(x) => Some(x@),
                None => None,
            },
            icci: match self.icci {
                Some(x) => Some(x@),
                None => None,
            },
            efe_nonlinear: match self.efe_nonlinear {
                Some(x) => Some(x@),
                None => None,
            },
            lef_channel: self.lef_channel,
        }
    }
}

impl Default for ToolHeader {
    fn default() -> (t: Self)
        ensures
            t@ == (ToolView {
                lsbs_enabled: (false, false),
                efe_linear: None,
                icci: None,
                efe_nonlinear: None,
                lef_channel: None,
            }),
    {
        ToolHeader {
            lsbs_enabled: [false, false],
            efe_linear: None,
            icci: None,
            efe_nonlinear: None,
            lef_channel: None,
        }
    }
}

/// What of the picture header the syntax of the tool header depends on.
pub struct ToolContext {
    /// The coded chroma planes have the source's chroma resolution.
    pub coded_444: bool,
    /// The eICCI flag is coded.
    pub icci_coded: bool,
    pub height: int,
    pub width: int,
}

/// The context that a picture header gives.
pub open spec fn context_of(pih: &PictureHeader) -> ToolContext {
    ToolContext {
        coded_444: pih.c_ver == pih.s_ver && pih.c_hor == pih.s_hor,
        icci_coded: pih.s_ver == 1 || pih.s_hor == 1,
        height: pih.height as int,
        width: pih.width as int,
    }
}

/// The context that a picture header gives, by its view.
pub open spec fn context_of_view(v: picture::PictureView) -> ToolContext {
    let g = v.geometry;
    ToolContext {
        coded_444: g.c_ver == g.s_ver && g.c_hor == g.s_hor,
        icci_coded: g.s_ver == 1 || g.s_hor == 1,
        height: g.height as int,
        width: g.width as int,
    }
}

/// EFE linear filter parameters at a position.
#[verifier::opaque]
pub open spec fn spec_linear(s: Seq<bool>, pos: int, coded_444: bool) -> bitio::Parsed<
    EfeLinearView,
> {
    if pos + 30 > s.len() {
        Err(Error::UnexpectedEof)
    } else {
        match spec_linear_set(s, pos + 30, coded_444) {
            Err(e) => Err(e),
            Ok((upsample_set, p)) => match spec_linear_set(s, p, coded_444) {
                Err(e) => Err(e),
                Ok((set, q)) => Ok(
                    (
                        EfeLinearView {
                            mean: (
                                bitio::field(s, pos, 15) as u16,
                                bitio::field(s, pos + 15, 15) as u16,
                            ),
                            upsample_set,
                            set,
                        },
                        q,
                    ),
                ),
            },
        }
    }
}

/// The LEF channel at a position.
pub open spec fn spec_lef(s: Seq<bool>, pos: int) -> bitio::Parsed<u8> {
    if pos + 8 > s.len() {
        Err(Error::UnexpectedEof)
    } else {
        Ok((bitio::field(s, pos, 8) as u8, pos + 8))
    }
}

/// The eICCI parameters and the flag before them; not there at all if the flag is not coded.
pub open spec fn spec_icci_part(s: Seq<bool>, pos: int, c: ToolContext) -> bitio::Parsed<
    Option<IcciView>,
> {
    if c.icci_coded {
        picture::flagged(s, pos, spec_icci(s, pos + 1, c.height, c.width))
    } else {
        Ok((None, pos))
    }
}

/// What [`ToolHeader::parse`] makes of a bit string.
pub open spec fn spec_tools(s: Seq<bool>, c: ToolContext) -> bitio::Parsed<ToolView> {
    if s.len() < 2 {
        Err(Error::UnexpectedEof)
    } else {
        match picture::flagged(s, 2, spec_linear(s, 3, c.coded_444)) {
            Err(e) => Err(e),
            Ok((efe_linear, p1)) => match spec_icci_part(s, p1, c) {
                Err(e) => Err(e),
                Ok((icci, p2)) => match picture::flagged(s, p2, spec_nonlinear(s, p2 + 1)) {
                    Err(e) => Err(e),
                    Ok((efe_nonlinear, p3)) => match picture::flagged(s, p3, spec_lef(s, p3 + 1)) {
                        Err(e) => Err(e),
                        Ok((lef_channel, p4)) => Ok(
                            (
                                ToolView {
                                    lsbs_enabled: (s[0], s[1]),
                                    efe_linear,
                                    icci,
                                    efe_nonlinear,
                                    lef_channel,
                                },
                                p4,
                            ),
                        ),
                    },
                },
            },
        }
    }
}

impl EfeLinearHeader {
    fn parse(r: &mut BitReader<'_>, coded_444: bool) -> (v: Result<Self>)
        requires
            old(r).wf(),
        ensures
            final(r).follows(old(r)),
            match spec_linear(old(r).bits(), old(r).pos(), coded_444) {
                Ok((t, p)) => v matches Ok(x) && x@ == t && final(r).pos() == p,
                Err(e) => v == Err::<EfeLinearHeader, Error>(e),
            },
    {
        proof {
            reveal(spec_linear);
            bitio::lemma_widths();
        }
        let mean0: u16 = r.read_bounded(32767)? as u16;
        let mean1: u16 = r.read_bounded(32767)? as u16;
        let upsample_set = EfeLinearSet::parse(r, coded_444)?;
        let set = EfeLinearSet::parse(r, coded_444)?;
        Ok(EfeLinearHeader { mean: [mean0, mean1], upsample_set, set })
    }
}

impl ToolHeader {
    /// Parse the TON payload. The EFE linear filter codes one chroma filter instead of four when
    /// the picture is coded without chroma subsampling, so the picture header is needed.
    pub fn parse(payload: &[u8], pih: &PictureHeader) -> (v: Result<Self>)
        requires
            bitio::addressable(payload@.len()),
            pih.height * pih.width <= usize::MAX,
        ensures
            match spec_tools(bits::of_bytes(payload@), context_of(pih)) {
                Ok((t, p)) => v matches Ok(x) && x@ == t,
                Err(e) => v == Err::<ToolHeader, Error>(e),
            },
    {
        proof {
            bitio::lemma_widths();
        }
        let mut r = BitReader::new(payload);
        let lsbs0: bool = r.read_bit()?;
        let lsbs1: bool = r.read_bit()?;
        let efe_linear: Option<EfeLinearHeader> = if r.read_bit()? {
            Some(EfeLinearHeader::parse(&mut r, pih.efe_coded_444())?)
        } else {
            None
        };
        let icci: Option<IcciHeader> = if pih.icci_flag_coded() {
            if r.read_bit()? {
                Some(IcciHeader::parse(&mut r, pih)?)
            } else {
                None
            }
        } else {
            None
        };
        let efe_nonlinear: Option<EfeNonlinearHeader> = if r.read_bit()? {
            Some(EfeNonlinearHeader::parse(&mut r)?)
        } else {
            None
        };
        let lef_channel: Option<u8> = if r.read_bit()? {
            Some(r.read_bounded(255)? as u8)
        } else {
            None
        };
        Ok(
            ToolHeader {
                lsbs_enabled: [lsbs0, lsbs1],
                efe_linear,
                icci,
                efe_nonlinear,
                lef_channel,
            },
        )
    }

    /// Whether any post-filter is switched on.
    pub fn any_post_filter(&self) -> (b: bool)
        ensures
            b == (self@.efe_linear is Some || self@.icci is Some || self@.efe_nonlinear is Some
                || self@.lef_channel is Some),
    {
        self.efe_linear.is_some() || self.icci.is_some() || self.efe_nonlinear.is_some()
            || self.lef_channel.is_some()
    }
}

/// The bits of EFE linear filter parameters.
#[verifier::opaque]
pub open spec fn linear_code(v: EfeLinearView) -> Seq<bool> {
    bits::low_bits(v.mean.0 as nat, 15) + bits::low_bits(v.mean.1 as nat, 15) + set_code(
        v.upsample_set,
    ) + set_code(v.set)
}

/// Why EFE linear filter parameters cannot be written, if they cannot.
pub open spec fn linear_error(v: EfeLinearView, coded_444: bool) -> Option<Error> {
    if v.mean.0 > 32767 || v.mean.1 > 32767 {
        Some(Error::InvalidArgument("EFE linear: mean out of range"))
    } else if set_error(v.upsample_set, coded_444) is Some {
        set_error(v.upsample_set, coded_444)
    } else {
        set_error(v.set, coded_444)
    }
}

/// The bits of the EFE linear part and the flag before it.
pub open spec fn linear_part(v: Option<EfeLinearView>) -> Seq<bool> {
    picture::flagged_code(
        match v {
            Some(x) => Some(linear_code(x)),
            None => None,
        },
    )
}

/// The bits of the eICCI part and the flag before it, if the flag is coded.
pub open spec fn icci_part(v: Option<IcciView>, coded: bool) -> Seq<bool> {
    if coded {
        picture::flagged_code(
            match v {
                Some(x) => Some(icci_code(x)),
                None => None,
            },
        )
    } else {
        Seq::empty()
    }
}

/// The bits of the EFE non-linear part and the flag before it.
pub open spec fn nonlinear_part(v: Option<NonlinearView>) -> Seq<bool> {
    picture::flagged_code(
        match v {
            Some(x) => Some(nonlinear_code(x)),
            None => None,
        },
    )
}

/// The bits of the LEF part and the flag before it.
pub open spec fn lef_part(v: Option<u8>) -> Seq<bool> {
    picture::flagged_code(
        match v {
            Some(x) => Some(bits::low_bits(x as nat, 8)),
            None => None,
        },
    )
}

/// The bits of a tool header.
pub open spec fn tools_code(v: ToolView, c: ToolContext) -> Seq<bool> {
    seq![v.lsbs_enabled.0, v.lsbs_enabled.1] + linear_part(v.efe_linear) + icci_part(
        v.icci,
        c.icci_coded,
    ) + nonlinear_part(v.efe_nonlinear) + lef_part(v.lef_channel)
}

/// Why a tool header cannot be written, if it cannot: the first of these that holds.
pub open spec fn tools_error(v: ToolView, c: ToolContext) -> Option<Error> {
    let linear = match v.efe_linear {
        Some(x) => linear_error(x, c.coded_444),
        None => None,
    };
    let icci = match v.icci {
        Some(x) => if c.icci_coded {
            icci_error(x, c.height, c.width)
        } else {
            Some(Error::InvalidArgument("eICCI: not available for 4:2:0 sources"))
        },
        None => None,
    };
    if linear is Some {
        linear
    } else if icci is Some {
        icci
    } else {
        match v.efe_nonlinear {
            Some(x) => nonlinear_error(x),
            None => None,
        }
    }
}

impl EfeLinearHeader {
    fn write(&self, w: &mut BitWriter, coded_444: bool) -> (r: Result<()>)
        requires
            old(w).wf(),
        ensures
            final(w).wf(),
            match linear_error(self@, coded_444) {
                Some(e) => r == Err::<(), Error>(e),
                None => r is Ok && final(w).bits() == old(w).bits() + linear_code(self@),
            },
    {
        if self.mean[0] > 32767 || self.mean[1] > 32767 {
            return Err(Error::InvalidArgument("EFE linear: mean out of range"));
        }
        w.write_bits(self.mean[0] as u32, 15);
        w.write_bits(self.mean[1] as u32, 15);
        self.upsample_set.write(w, coded_444)?;
        self.set.write(w, coded_444)?;
        proof {
            reveal(linear_code);
            assert(w.bits() =~= old(w).bits() + linear_code(self@));
        }
        Ok(())
    }
}

impl ToolHeader {
    fn write_linear(&self, w: &mut BitWriter, coded_444: bool) -> (r: Result<()>)
        requires
            old(w).wf(),
        ensures
            final(w).wf(),
            match (match self@.efe_linear {
                Some(x) => linear_error(x, coded_444),
                None => None,
            }) {
                Some(e) => r == Err::<(), Error>(e),
                None => r is Ok && final(w).bits() == old(w).bits() + linear_part(self@.efe_linear),
            },
    {
        w.write_bit(self.efe_linear.is_some());
        if let Some(x) = &self.efe_linear {
            x.write(w, coded_444)?;
        }
        proof {
            assert(w.bits() =~= old(w).bits() + linear_part(self@.efe_linear));
        }
        Ok(())
    }

    fn write_icci(&self, w: &mut BitWriter, pih: &PictureHeader) -> (r: Result<()>)
        requires
            old(w).wf(),
            pih.height * pih.width <= usize::MAX,
        ensures
            final(w).wf(),
            match (match self@.icci {
                Some(x) => if context_of(pih).icci_coded {
                    icci_error(x, pih.height as int, pih.width as int)
                } else {
                    Some(Error::InvalidArgument("eICCI: not available for 4:2:0 sources"))
                },
                None => None,
            }) {
                Some(e) => r == Err::<(), Error>(e),
                None => r is Ok && final(w).bits() == old(w).bits() + icci_part(
                    self@.icci,
                    context_of(pih).icci_coded,
                ),
            },
    {
        if pih.icci_flag_coded() {
            w.write_bit(self.icci.is_some());
        } else if self.icci.is_some() {
            return Err(Error::InvalidArgument("eICCI: not available for 4:2:0 sources"));
        }
        if let Some(x) = &self.icci {
            x.write(w, pih)?;
        }
        proof {
            assert(w.bits() =~= old(w).bits() + icci_part(self@.icci, context_of(pih).icci_coded));
        }
        Ok(())
    }

    fn write_nonlinear(&self, w: &mut BitWriter) -> (r: Result<()>)
        requires
            old(w).wf(),
        ensures
            final(w).wf(),
            match (match self@.efe_nonlinear {
                Some(x) => nonlinear_error(x),
                None => None,
            }) {
                Some(e) => r == Err::<(), Error>(e),
                None => r is Ok && final(w).bits() == old(w).bits() + nonlinear_part(
                    self@.efe_nonlinear,
                ),
            },
    {
        w.write_bit(self.efe_nonlinear.is_some());
        if let Some(x) = &self.efe_nonlinear {
            x.write(w)?;
        }
        proof {
            assert(w.bits() =~= old(w).bits() + nonlinear_part(self@.efe_nonlinear));
        }
        Ok(())
    }

    fn write_lef(&self, w: &mut BitWriter)
        requires
            old(w).wf(),
        ensures
            final(w).wf(),
            final(w).bits() == old(w).bits() + lef_part(self@.lef_channel),
    {
        w.write_bit(self.lef_channel.is_some());
        if let Some(ch) = self.lef_channel {
            w.write_bits(ch as u32, 8);
        }
        proof {
            assert(w.bits() =~= old(w).bits() + lef_part(self@.lef_channel));
        }
    }

    /// Serialise back to a `TON` substream payload (round-trips through [`Self::parse`]).
    pub fn write(&self, pih: &PictureHeader) -> (r: Result<Vec<u8>>)
        requires
            pih.height * pih.width <= usize::MAX,
        ensures
            match tools_error(self@, context_of(pih)) {
                Some(e) => r == Err::<Vec<u8>, Error>(e),
                None => r matches Ok(bytes) && bytes@ == bits::pack(
                    tools_code(self@, context_of(pih)),
                ),
            },
    {
        let mut w = BitWriter::new();
        w.write_bit(self.lsbs_enabled[0]);
        w.write_bit(self.lsbs_enabled[1]);
        proof {
            assert(w.bits() =~= seq![self@.lsbs_enabled.0, self@.lsbs_enabled.1]);
        }
        self.write_linear(&mut w, pih.efe_coded_444())?;
        self.write_icci(&mut w, pih)?;
        self.write_nonlinear(&mut w)?;
        self.write_lef(&mut w);
        Ok(w.finish())
    }
}

/// What parsed EFE linear parameters can hold, beyond what [`linear_error`] asks for.
pub open spec fn linear_codable(v: EfeLinearView) -> bool {
    &&& plane_codable(v.upsample_set.first) && plane_codable(v.upsample_set.second)
    &&& plane_codable(v.set.first) && plane_codable(v.set.second)
}

/// What a parsed tool header can hold, beyond what [`tools_error`] asks for: nothing about what
/// is not coded.
pub open spec fn tools_codable(v: ToolView) -> bool {
    &&& v.efe_linear matches Some(x) ==> linear_codable(x)
    &&& v.icci matches Some(x) ==> forall|j: int|
        0 <= j < x.tiles.len() ==> icci_tile_codable(#[trigger] x.tiles[j])
    &&& v.efe_nonlinear matches Some(x) ==> nonlinear_codable(x)
}

proof fn lemma_read_linear(s: Seq<bool>, pos: int, v: EfeLinearView, coded_444: bool)
    requires
        linear_error(v, coded_444) is None,
        plane_codable(v.upsample_set.first),
        plane_codable(v.upsample_set.second),
        plane_codable(v.set.first),
        plane_codable(v.set.second),
        bits::has_at(s, pos, linear_code(v)),
    ensures
        spec_linear(s, pos, coded_444) == Ok::<(EfeLinearView, int), Error>(
            (v, pos + linear_code(v).len()),
        ),
{
    reveal(spec_linear);
    reveal(linear_code);
    power2::lemma2_to64();
    let a = bits::low_bits(v.mean.0 as nat, 15);
    let b = bits::low_bits(v.mean.1 as nat, 15);
    let c = set_code(v.upsample_set);
    let d = set_code(v.set);
    bits::lemma_has_at_concat(s, pos, a + b + c, d);
    bits::lemma_has_at_concat(s, pos, a + b, c);
    bits::lemma_has_at_concat(s, pos, a, b);
    bitio::lemma_field(s, pos, v.mean.0 as nat, 15);
    bitio::lemma_field(s, pos + 15, v.mean.1 as nat, 15);
    lemma_read_set(s, pos + 30, v.upsample_set, coded_444);
    lemma_read_set(s, pos + 30 + c.len(), v.set, coded_444);
}

/// Reading back a part with a flag before it.
proof fn lemma_flag(s: Seq<bool>, pos: int, code: Option<Seq<bool>>)
    requires
        bits::has_at(s, pos, picture::flagged_code(code)),
    ensures
        pos + 1 <= s.len(),
        s[pos] == code is Some,
        code matches Some(c) ==> bits::has_at(s, pos + 1, c) && picture::flagged_code(code).len()
            == 1 + c.len(),
        code is None ==> picture::flagged_code(code).len() == 1,
{
    match code {
        None => {
            bitio::law_bit_round_trip(s, pos, false);
        },
        Some(c) => {
            bits::lemma_has_at_concat(s, pos, seq![true], c);
            bitio::law_bit_round_trip(s, pos, true);
        },
    }
}

proof fn lemma_read_linear_part(s: Seq<bool>, pos: int, v: Option<EfeLinearView>, coded_444: bool)
    requires
        v matches Some(x) ==> linear_error(x, coded_444) is None,
        v matches Some(x) ==> plane_codable(x.upsample_set.first) && plane_codable(
            x.upsample_set.second,
        ) && plane_codable(x.set.first) && plane_codable(x.set.second),
        bits::has_at(s, pos, linear_part(v)),
    ensures
        picture::flagged(s, pos, spec_linear(s, pos + 1, coded_444)) == Ok::<
            (Option<EfeLinearView>, int),
            Error,
        >((v, pos + linear_part(v).len())),
{
    match v {
        Some(x) => {
            lemma_flag(s, pos, Some(linear_code(x)));
            lemma_read_linear(s, pos + 1, x, coded_444);
        },
        None => {
            lemma_flag(s, pos, None);
        },
    }
}

proof fn lemma_read_icci_part(s: Seq<bool>, pos: int, v: Option<IcciView>, c: ToolContext)
    requires
        0 <= c.height,
        0 <= c.width,
        v matches Some(x) ==> c.icci_coded && icci_error(x, c.height, c.width) is None,
        v matches Some(x) ==> forall|j: int|
            0 <= j < x.tiles.len() ==> icci_tile_codable(#[trigger] x.tiles[j]),
        bits::has_at(s, pos, icci_part(v, c.icci_coded)),
    ensures
        spec_icci_part(s, pos, c) == Ok::<(Option<IcciView>, int), Error>(
            (v, pos + icci_part(v, c.icci_coded).len()),
        ),
{
    if c.icci_coded {
        match v {
            Some(x) => {
                lemma_flag(s, pos, Some(icci_code(x)));
                lemma_read_icci(s, pos + 1, x, c.height, c.width);
            },
            None => {
                lemma_flag(s, pos, None);
            },
        }
    }
}

proof fn lemma_read_nonlinear_part(s: Seq<bool>, pos: int, v: Option<NonlinearView>)
    requires
        v matches Some(x) ==> nonlinear_error(x) is None && nonlinear_codable(x),
        bits::has_at(s, pos, nonlinear_part(v)),
    ensures
        picture::flagged(s, pos, spec_nonlinear(s, pos + 1)) == Ok::<
            (Option<NonlinearView>, int),
            Error,
        >((v, pos + nonlinear_part(v).len())),
{
    match v {
        Some(x) => {
            lemma_flag(s, pos, Some(nonlinear_code(x)));
            lemma_read_nonlinear(s, pos + 1, x);
        },
        None => {
            lemma_flag(s, pos, None);
        },
    }
}

proof fn lemma_read_lef_part(s: Seq<bool>, pos: int, v: Option<u8>)
    requires
        bits::has_at(s, pos, lef_part(v)),
    ensures
        picture::flagged(s, pos, spec_lef(s, pos + 1)) == Ok::<(Option<u8>, int), Error>(
            (v, pos + lef_part(v).len()),
        ),
{
    match v {
        Some(x) => {
            lemma_flag(s, pos, Some(bits::low_bits(x as nat, 8)));
            power2::lemma2_to64();
            bitio::lemma_field(s, pos + 1, x as nat, 8);
        },
        None => {
            lemma_flag(s, pos, None);
        },
    }
}

/// A tool header that was written parses, with the same picture header, to what was written.
pub proof fn law_tools_round_trip(v: ToolView, c: ToolContext)
    requires
        tools_error(v, c) is None,
        tools_codable(v),
        0 <= c.height,
        0 <= c.width,
    ensures
        spec_tools(bits::of_bytes(bits::pack(tools_code(v, c))), c) == Ok::<(ToolView, int), Error>(
            (v, tools_code(v, c).len() as int),
        ),
{
    let code = tools_code(v, c);
    let s = bits::of_bytes(bits::pack(code));
    bits::lemma_pack(code);
    let f = seq![v.lsbs_enabled.0, v.lsbs_enabled.1];
    let l = linear_part(v.efe_linear);
    let i = icci_part(v.icci, c.icci_coded);
    let n = nonlinear_part(v.efe_nonlinear);
    let e = lef_part(v.lef_channel);
    bits::lemma_has_at_concat(s, 0, f + l + i + n, e);
    bits::lemma_has_at_concat(s, 0, f + l + i, n);
    bits::lemma_has_at_concat(s, 0, f + l, i);
    bits::lemma_has_at_concat(s, 0, f, l);
    assert(s.subrange(0, 2)[0] == f[0]);
    assert(s.subrange(0, 2)[1] == f[1]);
    let p1 = 2 + l.len() as int;
    let p2 = p1 + i.len();
    let p3 = p2 + n.len();
    lemma_read_linear_part(s, 2, v.efe_linear, c.coded_444);
    lemma_read_icci_part(s, p1, v.icci, c);
    lemma_read_nonlinear_part(s, p2, v.efe_nonlinear);
    lemma_read_lef_part(s, p3, v.lef_channel);
}

} // verus!
