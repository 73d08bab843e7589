//! Bounds, the memory budget, the memory ledger, error categories.

use enough::StopReason;
use zenjpegai::codec::{
    effective_limits, image_facts, limit_kind_from_reason, narrowed, probe, wide_samples,
    ErrorCategory, JpegAiDecoderConfig, LimitKind, NoModelSource,
};
use zenjpegai::container::{CodestreamWriter, Marker};
use zenjpegai::decoder::stats::{DecodeStats, Gate, StopKind};
use zenjpegai::decoder::{
    estimate_memory, BudgetPolicy, Decoder, Limits, MemoryBudget,
};
use zenjpegai::encoder::limits::{estimate_encode_memory, EncodeLimits};
use zenjpegai::error::Error;
use zenjpegai::header::{OperatingPoint, PictureHeader, SynthesisTiling};
use zenjpegai::mem::{Charge, Ledger, MemoryWatch};

const POOL: usize = 256 << 20;

fn pih() -> Vec<u8> {
    "011103401f00338000008a32c5001800"
        .as_bytes()
        .chunks(2)
        .map(|p| u8::from_str_radix(core::str::from_utf8(p).unwrap(), 16).unwrap())
        .collect()
}

/// A 560x888 8-bit 4:4:4 picture for the points BOP and SOP.
fn header() -> PictureHeader {
    PictureHeader::parse(&pih()).unwrap()
}

fn stream() -> Vec<u8> {
    let mut w = CodestreamWriter::new();
    w.substream(Marker::Pih, &pih()).unwrap();
    w.finish()
}

#[test]
fn header_is_judged_against_every_bound() {
    let hdr = header();
    let op = OperatingPoint::Bop;
    assert!(Limits::default().check_header(&hdr, op, POOL).is_ok());
    assert!(Limits::none().check_header(&hdr, op, POOL).is_ok());
    let px = 560 * 888;
    assert!(Limits::none().with_max_pixels(px).check_header(&hdr, op, POOL).is_ok());
    for l in [
        Limits::none().with_max_pixels(px - 1),
        Limits::none().with_max_dimensions(559, 888),
        Limits::none().with_max_dimensions(560, 887),
        Limits::none().with_max_memory(50 << 20),
    ] {
        assert!(matches!(l.check_header(&hdr, op, POOL), Err(Error::LimitExceeded(_))));
    }
    assert!(Limits::none().with_max_input_bytes(10).check_input(10).is_ok());
    assert!(Limits::none().with_max_input_bytes(10).check_input(11).is_err());
}

#[test]
fn estimate_orders_operating_points_and_honours_tiling() {
    let mut hdr = header();
    let e = |h: &PictureHeader, op| estimate_memory(h, op, POOL).live_bytes;
    assert!(e(&hdr, OperatingPoint::Sop) < e(&hdr, OperatingPoint::Bop));
    assert!(e(&hdr, OperatingPoint::Bop) < e(&hdr, OperatingPoint::Hop));
    let untiled = e(&hdr, OperatingPoint::Hop);
    hdr.components[0].synthesis_tiling = Some(SynthesisTiling { tile_size: 256, overlap: 64 });
    assert!(e(&hdr, OperatingPoint::Hop) < untiled / 3);
}

#[test]
fn source_is_judged_against_every_bound() {
    let (w, h) = (560, 888);
    let op = OperatingPoint::Bop;
    assert!(EncodeLimits::default().check(w, h, op, false, POOL).is_ok());
    assert!(EncodeLimits::none().check(w, h, op, true, POOL).is_ok());
    assert!(EncodeLimits::none()
        .with_max_pixels(w as u64 * h as u64)
        .check(w, h, op, false, POOL)
        .is_ok());
    for l in [
        EncodeLimits::none().with_max_pixels(w as u64 * h as u64 - 1),
        EncodeLimits::none().with_max_dimensions(559, 888),
        EncodeLimits::none().with_max_dimensions(560, 887),
        EncodeLimits::none().with_max_memory(20 << 20),
    ] {
        for rate_matched in [false, true] {
            assert!(
                matches!(
                    l.check(w, h, op, rate_matched, POOL),
                    Err(Error::LimitExceeded(_))
                ),
                "{l:?} rate_matched={rate_matched}"
            );
        }
    }
}

#[test]
fn estimate_orders_operating_points_and_rate_matching() {
    // A bound on what a picture sample costs, so that the cost cannot drift unnoticed.
    const PER_PICTURE_SAMPLE_BOUND: u64 = 256;
    let e = |w, h, op, r| estimate_encode_memory(w, h, op, r, POOL).live_bytes;
    assert!(e(560, 888, OperatingPoint::Sop, false) < e(560, 888, OperatingPoint::Hop, false));
    assert!(e(560, 888, OperatingPoint::Bop, false) < e(560, 888, OperatingPoint::Bop, true));
    assert!(e(64, 64, OperatingPoint::Bop, false) < e(2096, 1400, OperatingPoint::Bop, false));
    // Tiling caps the per-tile term: above 1 MP the slope must not grow.
    let slope = e(2 * 2096, 2 * 1400, OperatingPoint::Bop, false)
        - e(2096, 1400, OperatingPoint::Bop, false);
    assert!(slope < 4 * PER_PICTURE_SAMPLE_BOUND * 2096 * 1400);
}

#[test]
fn the_pool_is_part_of_the_peak() {
    let e = estimate_memory(&header(), OperatingPoint::Bop, 1000);
    assert_eq!(e.pool_bytes, 1000);
    assert_eq!(e.peak_bytes(), e.live_bytes + 1000);
}

#[test]
fn decoder_picks_its_operating_point() {
    let hdr = header();
    assert_eq!(Decoder::new().pick_operating_point(&hdr), Ok(OperatingPoint::Bop));
    assert_eq!(
        Decoder::new().operating_point(Some(OperatingPoint::Sop)).pick_operating_point(&hdr),
        Ok(OperatingPoint::Sop)
    );
    assert!(Decoder::new()
        .operating_point(Some(OperatingPoint::Hop))
        .pick_operating_point(&hdr)
        .is_err());
}

#[test]
fn a_plan_holds_headers_and_estimate() {
    let plan = Decoder::new().plan(&stream(), POOL).unwrap();
    assert_eq!((plan.headers.picture.width, plan.op), (560, OperatingPoint::Bop));
    assert_eq!(
        plan.estimate.live_bytes,
        Decoder::new().estimate_memory(&stream(), POOL).unwrap().live_bytes
    );
    let small = Decoder::new().limits(Limits::none().with_max_input_bytes(3));
    assert!(matches!(small.plan(&stream(), POOL), Err(Error::LimitExceeded(_))));
}

#[test]
fn budget_grants_in_the_order_of_arrival() {
    let mut b = MemoryBudget::new(100);
    let t1 = b.enqueue(60).unwrap();
    let t2 = b.enqueue(60).unwrap();
    let g1 = b.acquire(t1, 60, None).unwrap().unwrap();
    assert_eq!((b.held(), b.jobs(), b.waiting()), (60, 1, 1));
    assert!(b.acquire(t2, 60, None).unwrap().is_none());
    b.release(g1);
    let g2 = b.acquire(t2, 60, None).unwrap().unwrap();
    assert_eq!((g2.bytes(), b.held(), b.waiting()), (60, 60, 0));
    b.release(g2);
    assert_eq!((b.held(), b.jobs()), (0, 0));
}

#[test]
fn budget_failures() {
    let mut b = MemoryBudget::new(100);
    assert!(matches!(b.enqueue(101), Err(Error::LimitExceeded(_))));
    let t = b.enqueue(100).unwrap();
    let g = b.acquire(t, 100, None).unwrap().unwrap();
    let t = b.enqueue(1).unwrap();
    assert_eq!(
        b.acquire(t, 1, Some(StopReason::TimedOut)).err(),
        Some(Error::Cancelled(StopReason::TimedOut))
    );
    assert_eq!(b.waiting(), 0);
    b.release(g);

    let mut b = MemoryBudget::new(100).with_policy(BudgetPolicy::FailFast).with_max_jobs(1);
    let t = b.enqueue(10).unwrap();
    let _g = b.acquire(t, 10, None).unwrap().unwrap();
    let t = b.enqueue(10).unwrap();
    assert!(matches!(b.acquire(t, 10, None), Err(Error::ResourceBusy(_))));
}

#[test]
fn grants_are_capped_in_number() {
    let mut b = MemoryBudget::new(100).with_max_jobs(2);
    let tickets = [b.enqueue(10).unwrap(), b.enqueue(10).unwrap(), b.enqueue(10).unwrap()];
    let g = b.acquire(tickets[0], 10, None).unwrap().unwrap();
    assert!(b.acquire(tickets[1], 10, None).unwrap().is_some());
    assert!(b.acquire(tickets[2], 10, None).unwrap().is_none());
    assert_eq!((b.held(), b.jobs()), (20, 2));
    b.release(g);
    assert!(b.acquire(tickets[2], 10, None).unwrap().is_some());
    assert_eq!((b.held(), b.jobs()), (20, 2));
}

#[test]
fn an_oversize_job_runs_alone() {
    let mut b = MemoryBudget::new(100).with_allow_oversize(true);
    let t1 = b.enqueue(500).unwrap();
    let t2 = b.enqueue(1).unwrap();
    let g = b.acquire(t1, 500, None).unwrap().unwrap();
    assert!(b.acquire(t2, 1, None).unwrap().is_none());
    b.release(g);
    assert!(b.acquire(t2, 1, None).unwrap().is_some());
    assert_eq!(b.bytes(), 100);
}

#[test]
fn ledger_and_watch() {
    let mut l = Ledger::new();
    let mut c = Charge::new(&mut l, 100);
    let watch = MemoryWatch::new(&mut l);
    c.resize(&mut l, 250);
    let parked = Charge::new(&mut l, 50).release();
    l.parked_move(parked);
    let r = watch.report(&l);
    assert_eq!((r.tracked_live_bytes, r.tracked_peak_bytes, r.pool_bytes), (200, 200, 50));
    c.discharge(&mut l);
    assert_eq!(l.total(), 50);
    l.unparked(50);
    assert_eq!(l.total(), 0);
    assert_eq!(l.cumulative().tracked_peak_bytes, 300);
    watch.reset(&mut l);
    assert_eq!(watch.report(&l).tracked_peak_bytes, 0);
    l.bump(7);
    l.unbump(7);
    assert_eq!(watch.report(&l).tracked_peak_bytes, 7);
    assert_eq!(watch.report(&l).tracked_live_bytes, 0);
    assert_eq!(Charge::empty().release(), 0);
}

#[test]
fn watch_reports_only_its_own() {
    let mut l = Ledger::new();
    let before = Charge::new(&mut l, 100).release();
    l.parked_move(before);
    let watch = MemoryWatch::new(&mut l);
    let read = |w: &MemoryWatch, l: &Ledger| {
        let r = w.report(l);
        (r.tracked_peak_bytes, r.tracked_live_bytes, r.pool_bytes)
    };
    // What the pool held before is not the watch's.
    assert_eq!(read(&watch, &l), (0, 0, 0));
    let c = Charge::new(&mut l, 10);
    assert_eq!(read(&watch, &l), (10, 10, 0));
    l.parked_move(c.release());
    assert_eq!(read(&watch, &l), (10, 10, 10));
    // A buffer that was live before and is parked now adds nothing.
    watch.reset(&mut l);
    assert_eq!(read(&watch, &l), (0, 0, 0));
    l.unparked(110);
    let live = Charge::new(&mut l, 110);
    watch.reset(&mut l);
    l.parked_move(live.release());
    assert_eq!(read(&watch, &l), (0, 0, 0));
}

#[test]
fn watches_see_what_came_and_went() {
    let mut l = Ledger::new();
    let outer = MemoryWatch::new(&mut l);
    Charge::new(&mut l, 30).discharge(&mut l);
    let kept = Charge::new(&mut l, 5);
    let inner = MemoryWatch::new(&mut l);
    Charge::new(&mut l, 40).discharge(&mut l);
    assert_eq!(outer.report(&l).tracked_peak_bytes, 45);
    assert_eq!(inner.report(&l).tracked_peak_bytes, 40);
    assert_eq!(outer.report(&l).tracked_live_bytes, 5);
    assert_eq!(inner.report(&l).tracked_live_bytes, 0);
    // An open watch stays where it is when closed ones make room.
    inner.close(&mut l);
    let next = MemoryWatch::new(&mut l);
    kept.discharge(&mut l);
    assert_eq!(next.report(&l).tracked_peak_bytes, 0);
    assert_eq!(outer.report(&l).tracked_peak_bytes, 45);
    outer.close(&mut l);
    let last = MemoryWatch::new(&mut l);
    l.bump(3);
    assert_eq!(next.report(&l).tracked_peak_bytes, 0);
    assert_eq!(last.report(&l).tracked_peak_bytes, 3);
}

#[test]
fn error_categories_are_stable() {
    assert_eq!(Error::UnexpectedEof.category(), ErrorCategory::UnexpectedEof);
    assert_eq!(Error::InvalidData("x").category(), ErrorCategory::Malformed);
    assert_eq!(Error::NonConforming("x").category(), ErrorCategory::Malformed);
    assert_eq!(Error::Unsupported("x").category(), ErrorCategory::UnsupportedFeature);
    assert_eq!(
        Error::Cancelled(StopReason::Cancelled).category(),
        ErrorCategory::Stopped(StopReason::Cancelled)
    );
}

#[test]
fn remaining_error_categories() {
    assert_eq!(Error::InvalidArgument("x").category(), ErrorCategory::InvalidParameters);
    assert_eq!(Error::Model("x".to_string()).category(), ErrorCategory::InvalidParameters);
    assert_eq!(Error::ResourceBusy("x").category(), ErrorCategory::Busy);
    assert_eq!(
        Error::LimitExceeded("picture taller than max_height").category(),
        ErrorCategory::Limits(LimitKind::Height)
    );
}

#[test]
fn limit_kind_matches_reason_text() {
    assert_eq!(limit_kind_from_reason("picture wider than max_width"), LimitKind::Width);
    assert_eq!(limit_kind_from_reason("picture taller than max_height"), LimitKind::Height);
    assert_eq!(
        limit_kind_from_reason("picture has more than max_pixels samples"),
        LimitKind::Pixels
    );
    assert_eq!(
        limit_kind_from_reason("estimated decode memory exceeds max_memory_bytes"),
        LimitKind::Memory
    );
    assert_eq!(
        limit_kind_from_reason("codestream larger than max_input_bytes"),
        LimitKind::InputSize
    );
    assert_eq!(limit_kind_from_reason("something new"), LimitKind::Pixels);
}

#[test]
fn messages_name_the_error_and_its_detail() {
    for (e, want) in [
        (Error::UnexpectedEof, "unexpected end of data"),
        (Error::InvalidData("a"), "invalid codestream: a"),
        (Error::Unsupported("b"), "unsupported: b"),
        (Error::NonConforming("c"), "non-conforming codestream: c"),
        (Error::Model("d".to_string()), "model error: d"),
        (Error::InvalidArgument("e"), "invalid argument: e"),
        (Error::LimitExceeded("f"), "limit exceeded: f"),
        (Error::ResourceBusy("g"), "resource busy: g"),
        (Error::Cancelled(StopReason::Cancelled), "stopped: operation cancelled"),
        (Error::from(StopReason::TimedOut), "stopped: operation timed out"),
    ] {
        assert_eq!(e.message(), want);
        assert_eq!(e.clone(), e);
    }
}

/// Reading headers needs no model; a model that is not there is an error.
#[test]
fn default_config_probes_but_cannot_decode() {
    let config = JpegAiDecoderConfig::default();
    let headers = probe(&config.limits, &stream()).unwrap();
    let facts = image_facts(&headers);
    assert_eq!((facts.width, facts.height), (560, 888));
    assert_eq!(NoModelSource.read("a/b").category(), ErrorCategory::InvalidParameters);
}

#[test]
fn job_limits_come_before_the_config() {
    let config = Limits::none().with_max_pixels(10);
    let job = Limits::none().with_max_pixels(20);
    assert_eq!(effective_limits(config, None), config);
    assert_eq!(effective_limits(config, Some(job)), job);
    assert_eq!(
        JpegAiDecoderConfig::with_limits(config)
            .operating_point(Some(OperatingPoint::Hop))
            .operating_point,
        Some(OperatingPoint::Hop)
    );
    let c = JpegAiDecoderConfig::new();
    assert!(c.estimate_decode_bytes(100, 100) < c.estimate_decode_bytes(1000, 1000));
}

#[test]
fn a_configuration_decodes_with_its_operating_point() {
    let config = JpegAiDecoderConfig::with_limits(Limits::none().with_max_pixels(1 << 20));
    let mut h = header();
    h.synthesis_transforms = vec![OperatingPoint::Bop, OperatingPoint::Sop];
    let d = config.operating_point(Some(OperatingPoint::Sop)).decoder();
    assert_eq!(d.pick_operating_point(&h), Ok(OperatingPoint::Sop));
    assert_eq!(d.limits.max_pixels, Some(1 << 20));
    assert_eq!(d.max_channels, (None, None));
    assert_eq!(config.decoder().pick_operating_point(&h), Ok(OperatingPoint::Bop));
    let d = config.operating_point(Some(OperatingPoint::Hop)).decoder();
    assert!(matches!(d.pick_operating_point(&h), Err(Error::InvalidArgument(_))));
}

#[test]
fn samples_are_narrowed_where_a_byte_holds_them() {
    assert!(!wide_samples(8));
    assert!(wide_samples(10));
    assert_eq!(narrowed(&vec![0, 7, 255]), [0, 7, 255]);
}

#[test]
fn gate_remembers_the_first_stop() {
    let mut g = Gate::new();
    assert_eq!(g.answer(), None);
    g.settle(None);
    assert_eq!(g.answer(), None);
    g.settle(Some(StopKind::TimedOut));
    g.settle(Some(StopKind::Cancelled));
    assert_eq!(g.answer(), Some(StopKind::TimedOut));
    assert_eq!(DecodeStats::default().total, 0);
}
