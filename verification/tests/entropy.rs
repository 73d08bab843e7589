//! Entropy coding of hyper-latents and residual, and whole encodes.

use zenjpegai::area::Area;
use zenjpegai::container::{split_threads, Codestream, Marker};
use zenjpegai::decoder::entropy::{component_scales, decode_component_body, decode_z, GrfsFlags};
use zenjpegai::decoder::front::entropy_front;
use zenjpegai::decoder::read_headers;
use zenjpegai::encoder::commit::commit;
use zenjpegai::encoder::params::{picture_header, EncodeParams, RegionMode};
use zenjpegai::encoder::quantised::{encode_quantised, Quantised};
use zenjpegai::encoder::residual::{encode_residual, encode_z};
use zenjpegai::encoder::stream::{encode_hyper, encode_stream, try_encode_stream, Coded};
use zenjpegai::error::Error;
use zenjpegai::header::{PictureHeader, Regions, RenderingInfo, ToolHeader};
use zenjpegai::mans::tables::{
    column_symbol, normalize_z_cdf, renorm_bits, symbol_column, z_decode_preprocess,
    z_encode_delta_bits, ResidualTables,
};
use zenjpegai::mans::{AnsTables, PdfTables, MAX_Z};
use zenjpegai::mem::{Ledger, MemoryWatch};
use zenjpegai::regions::{coded_mask, cube_count};
use zenjpegai::residual::{channel_step, distribution_index};
use zenjpegai::tensor::Tensor;

/// Distributions with masses for the symbols -3 ..= 3 and an escape at bound 4.
fn pdf() -> PdfTables {
    let rows = (0..32u8)
        .map(|d| match d % 2 {
            0 => vec![100, 40, 40, 25, 25, 13, 12],
            _ => vec![200, 20, 15, 8, 6, 4, 2],
        })
        .collect();
    PdfTables { rows, bounds: vec![4; 32] }
}

fn tables() -> AnsTables {
    AnsTables::new(&pdf())
}

fn tensor<T>(c: usize, h: usize, w: usize, f: impl Fn(usize) -> T) -> Tensor<T> {
    Tensor { c, h, w, data: (0..c * h * w).map(f).collect() }
}

fn z_cdf(peak: usize) -> [u8; MAX_Z] {
    let mut freqs = [1i32; MAX_Z];
    freqs[peak] = 200;
    normalize_z_cdf(&freqs)
}

#[test]
fn symbol_column_roundtrip() {
    for v in -128..128 {
        assert_eq!(column_symbol(symbol_column(v)), v);
    }
    assert_eq!((0..6).map(column_symbol).collect::<Vec<_>>(), [0, -1, 1, -2, 2, -3]);
}

#[test]
fn z_preprocess_matches_reference_loop() {
    // The number of bits as a running counter from 511 down to 1.
    let mut want = [0u16; 512];
    let mut nbits = 0u32;
    for i in (1..512u32).rev() {
        if (i << nbits) < 256 {
            nbits += 1;
        }
        want[i as usize] = (((i << nbits) ^ 256) | (nbits << 8)) as u16;
    }
    assert_eq!(z_decode_preprocess(), want);

    let mut want = [0u16; 256];
    let mut nbits = 1u32;
    for i in (1..256u32).rev() {
        if (i << nbits) < 256 {
            nbits += 1;
        }
        want[i as usize] = ((nbits << 8) + 256 - (i << nbits)) as u16;
    }
    assert_eq!(z_encode_delta_bits(), want);
}

#[test]
fn renormalisation_reaches_nine_bits() {
    assert_eq!(renorm_bits(1), 8);
    assert_eq!(renorm_bits(255), 1);
    assert_eq!(renorm_bits(256), 0);
}

#[test]
fn state_maps_are_permutations() {
    let t = ResidualTables::build(&pdf());
    for map in &t.state_map {
        let mut seen = [false; 256];
        for &s in map {
            assert!(!seen[s as usize]);
            seen[s as usize] = true;
        }
    }
    assert_eq!(tables().bound(3), 4);
}

#[test]
fn normalised_cdfs_end_at_255() {
    let cdf = z_cdf(10);
    assert_eq!(cdf[MAX_Z - 1], 255);
    assert!(cdf.windows(2).all(|p| p[0] <= p[1]));
    // All mass on the first symbol.
    let mut freqs = [0i32; MAX_Z];
    freqs[0] = 5;
    assert_eq!(normalize_z_cdf(&freqs), [255; MAX_Z]);
}

#[test]
fn distributions_round_to_nearest() {
    assert_eq!(distribution_index(-500), 0);
    assert_eq!(distribution_index(63), 0);
    assert_eq!(distribution_index(64), 1);
    assert_eq!(distribution_index(31 * 128), 31);
    assert_eq!(distribution_index(100_000), 31);
}

#[test]
fn channel_steps_make_whole_groups() {
    assert_eq!(channel_step(56, 35, 160, 1), 1);
    assert_eq!(channel_step(3, 5, 160, 4), 16);
    assert_eq!(channel_step(3, 5, 7, 4), 7);
    assert_eq!(channel_step(3, 5, 0, 4), 1);
    assert_eq!(channel_step(usize::MAX, usize::MAX, 0, 4), 1);
}

#[test]
fn residual_symbols_come_back_on_every_thread_count() {
    let t = tables();
    let n = 203;
    let sigma: Vec<u8> = (0..n).map(|i| (i % 32) as u8).collect();
    let mask: Vec<bool> = (0..n).map(|i| i % 5 != 0).collect();
    let values: Vec<i16> = (0..n as i16).map(|i| (i * 37 % 13) - 6).collect();
    for threads in [1usize, 2, 4, 8, 16] {
        let mut enc = t.encoder(threads).unwrap();
        enc.encode_residual(&sigma, &mask, &values).unwrap();
        let bytes = enc.finish();
        let refs: Vec<&[u8]> = bytes.iter().map(|b| b.as_slice()).collect();
        let mut dec = t.decoder(&refs).unwrap();
        assert_eq!(dec.num_threads(), threads);
        let mut out = vec![0i16; n];
        dec.decode_residual(&sigma, &mask, &mut out).unwrap();
        for i in 0..n {
            assert_eq!(out[i], if mask[i] { values[i] } else { 0 }, "symbol {i}");
        }
        assert!(!dec.overrun());
    }
}

#[test]
fn indices_above_the_last_distribution_are_clamped() {
    let t = tables();
    let n = 256;
    let sigma: Vec<u8> = (0..n).map(|i| i as u8).collect();
    let clamped: Vec<u8> = sigma.iter().map(|&s| s.min(31)).collect();
    let (mask, values) = (vec![true; n], (0..n).map(|i| (i % 7) as i16 - 3).collect::<Vec<_>>());
    for threads in [1usize, 3] {
        let written = |sigma: &[u8]| {
            let mut enc = t.encoder(threads).unwrap();
            enc.encode_residual(sigma, &mask, &values).unwrap();
            enc.finish()
        };
        let bytes = written(&clamped);
        assert_eq!(written(&sigma), bytes);
        let refs: Vec<&[u8]> = bytes.iter().map(|b| b.as_slice()).collect();
        let mut out = vec![0i16; n];
        t.decoder(&refs).unwrap().decode_residual(&sigma, &mask, &mut out).unwrap();
        assert_eq!(out, values);
    }
    let mut pdf = pdf();
    pdf.rows[8] = vec![120, 68, 67];
    pdf.bounds[8] = 2;
    let t = AnsTables::new(&pdf);
    assert_eq!((t.bound(8), t.bound(31), t.bound(40)), (2, 4, 4));
}

#[test]
fn thread_counts_are_bounded() {
    let t = tables();
    assert!(matches!(t.encoder(0).err(), Some(Error::InvalidArgument(_))));
    assert!(matches!(t.encoder(17).err(), Some(Error::InvalidArgument(_))));
    assert!(matches!(t.decoder(&[]).err(), Some(Error::InvalidData(_))));
}

#[test]
fn hyper_latents_come_back() {
    let t = tables();
    let cdfs = [z_cdf(10), z_cdf(40), z_cdf(0)];
    let z = tensor(3, 3, 5, |i| (i as i32 * 29 % 64 - 32) as i8);
    for threads in [1usize, 4] {
        let mut enc = t.encoder(threads).unwrap();
        encode_z(&mut enc, &cdfs, 32, &z).unwrap();
        let bytes = enc.finish();
        let refs: Vec<&[u8]> = bytes.iter().map(|b| b.as_slice()).collect();
        let mut dec = t.decoder(&refs).unwrap();
        assert_eq!(decode_z(&mut Ledger::new(), &mut dec, &cdfs, 32, 3, 5).unwrap(), z);
    }
}

#[test]
fn falling_cdfs_and_symbols_out_of_range_are_refused() {
    let t = tables();
    let mut falling = z_cdf(10);
    falling[20] = 0;
    let z = tensor(1, 1, 1, |_| 0i8);
    let mut enc = t.encoder(1).unwrap();
    assert_eq!(
        encode_z(&mut enc, &[falling], 32, &z),
        Err(Error::InvalidArgument("z CDF is not monotonic"))
    );
    let far = tensor(1, 1, 1, |_| 40i8);
    assert_eq!(
        encode_z(&mut enc, &[z_cdf(1)], 32, &far),
        Err(Error::InvalidArgument("encode_z: symbol out of range"))
    );
}

#[test]
fn truncated_threads_are_refused() {
    let t = tables();
    let mut enc = t.encoder(1).unwrap();
    enc.encode_residual(&[0; 200], &[true; 200], &[3; 200]).unwrap();
    let bytes = enc.finish();
    let cut = &bytes[0][bytes[0].len() - 4..];
    let mut dec = t.decoder(&[cut]).unwrap();
    let mut out = vec![0i16; 200];
    assert!(matches!(
        dec.decode_residual(&[0; 200], &[true; 200], &mut out),
        Err(Error::InvalidData(_))
    ));
}

#[test]
fn scales_take_the_gain_of_their_channel() {
    let s = tensor(2, 1, 2, |i| i as i32 * 10);
    assert_eq!(component_scales(s.clone(), &[5, -7]).unwrap().data, [5, 15, 13, 23]);
    assert_eq!(
        component_scales(s, &[0, 8192]),
        Err(Error::InvalidData("log-domain scaler out of range"))
    );
    assert_eq!(GrfsFlags::Signalled(Some(&[true])).in_force(&[false]), Some(vec![true]));
    assert_eq!(GrfsFlags::Derive(true).in_force(&[false]), Some(vec![false]));
    assert_eq!(GrfsFlags::Derive(false).in_force(&[true]), None);
}

struct Parts {
    z: Tensor<i8>,
    cdfs: Vec<[u8; MAX_Z]>,
    scale: Tensor<i32>,
    mask: Tensor<bool>,
    residual: Tensor<i16>,
}

fn parts(chs: usize, size: (u32, u32), z_size: (u32, u32), seed: usize) -> Parts {
    let (h, w) = (size.0 as usize, size.1 as usize);
    Parts {
        z: tensor(chs, z_size.0 as usize, z_size.1 as usize, |i| ((i + seed) % 64) as i8 - 32),
        cdfs: (0..chs).map(|c| z_cdf(5 * c + seed)).collect(),
        scale: tensor(chs, h, w, |i| ((i * 7 + seed) % 32) as i32 * 128),
        mask: tensor(chs, h, w, |i| (i + seed) % 3 != 0),
        residual: tensor(chs, h, w, |i| ((i * 31 + seed) % 15) as i16 - 7),
    }
}

fn header(w: u32, h: u32, params: &EncodeParams) -> PictureHeader {
    let mut hdr = picture_header(w, h, 1, [0, 0], params);
    hdr.components[0].num_chs = 3;
    hdr.components[1].num_chs = 2;
    hdr
}

fn coded<'a>(p: &'a Parts, areas: &'a [Area]) -> Coded<'a> {
    Coded {
        z_hat: &p.z,
        z_cdfs: &p.cdfs,
        scale_log: &p.scale,
        mask: &p.mask,
        residual_q: &p.residual,
        areas,
    }
}

fn come_back(params: &EncodeParams, w: u32, h: u32, areas: &[Area]) {
    let t = tables();
    let hdr = header(w, h, params);
    let luma = parts(3, hdr.latent_size(0), hdr.hyper_latent_size(0), 1);
    let chroma = parts(2, hdr.latent_size(1), hdr.hyper_latent_size(1), 9);
    let ton = ToolHeader { lsbs_enabled: [true, true], ..Default::default() };
    let bytes = encode_stream(
        &mut Ledger::new(),
        &t,
        &hdr,
        &ton,
        &RenderingInfo::default(),
        &coded(&luma, areas),
        &coded(&chroma, areas),
        32,
    )
    .unwrap();
    let tried = try_encode_stream(
        &mut Ledger::new(),
        &t,
        &hdr,
        &ton,
        &RenderingInfo::default(),
        &coded(&luma, areas),
        &coded(&chroma, areas),
        32,
    );
    assert_eq!(tried, Some(Ok(bytes.clone())));
    let cs = Codestream::parse(&bytes).unwrap();
    let found = read_headers(&cs).unwrap();
    assert_eq!(found.picture, hdr);
    assert_eq!(found.tools, ton);
    let ledger = &mut Ledger::new();
    let front = entropy_front(ledger, &t, &cs, &found.picture, [&luma.cdfs, &chroma.cdfs], 32).unwrap();
    assert_eq!(front.z, [luma.z.clone(), chroma.z.clone()]);
    for (ccs, p) in [&luma, &chroma].into_iter().enumerate() {
        let back = decode_component_body(
            &mut Ledger::new(),
            &t,
            &found.picture,
            ccs,
            &p.scale,
            &p.mask,
            areas,
            &front.regions[ccs],
            None,
        )
        .unwrap();
        for i in 0..back.data.len() {
            let want = if p.mask.data[i] { p.residual.data[i] } else { 0 };
            assert_eq!(back.data[i], want, "component {ccs} sample {i}");
        }
    }
}

#[test]
fn quantised_components_come_back_whole() {
    let t = tables();
    let params = EncodeParams {
        beta_displacement_log: [-9000, 300],
        lsbs: true,
        num_threads_r: 2,
        ..Default::default()
    };
    let hdr = picture_header(200, 100, 1, [0, 0], &params);
    let areas = [Area::new(0, 0, 13, 7)];
    let make = |ccs: usize, chs: usize, seed: usize| {
        let p = parts(chs, hdr.latent_size(ccs), hdr.hyper_latent_size(ccs), seed);
        let (h, w) = (p.mask.h, p.mask.w);
        let flags = tensor(4, cube_count(h), cube_count(w), |i| i % 2 == seed % 2);
        let residuals = [p.residual.clone()];
        let whole = [Area::new(0, 0, w, h)];
        let c = commit(&p.mask, &residuals, &[flags], &whole, &whole, h, w, true).unwrap();
        (p, c)
    };
    let ((luma, of_luma), (chroma, of_chroma)) = (make(0, 3, 1), make(1, 2, 2));
    let none = None;
    let both = [(&luma, &of_luma), (&chroma, &of_chroma)];
    let quantised = |i: usize| Quantised {
        z_hat: &both[i].0.z,
        z_cdfs: &both[i].0.cdfs,
        scale_log: &both[i].0.scale,
        committed: both[i].1,
        grfs_channel_flags: &none,
        areas: &areas,
    };
    let encode = |w: usize| {
        let (l, c) = (quantised(0), quantised(1));
        encode_quantised(&mut Ledger::new(), &t, w, 100, &params, &l, &c, 32)
    };
    let bytes = encode(200).unwrap().unwrap();
    let cs = Codestream::parse(&bytes).unwrap();
    let found = read_headers(&cs).unwrap();
    assert_eq!(found.picture.beta_displacement_log, [-1069, 300]);
    assert_eq!(found.tools.lsbs_enabled, [true, true]);
    let ledger = &mut Ledger::new();
    let front = entropy_front(ledger, &t, &cs, &found.picture, [&luma.cdfs, &chroma.cdfs], 32).unwrap();
    for (ccs, (p, c)) in both.into_iter().enumerate() {
        assert_eq!(front.z[ccs], p.z);
        assert!(c.cube_flags.is_some());
        assert_eq!(found.picture.components[ccs].cube_flags, c.cube_flags);
        // The decoder derives the mask from the threshold and the header.
        let mask = coded_mask(&p.mask, &found.picture.components[ccs].cube_flags);
        let back = decode_component_body(
            &mut Ledger::new(),
            &t,
            &found.picture,
            ccs,
            &p.scale,
            &mask,
            &areas,
            &front.regions[ccs],
            None,
        );
        assert_eq!(back.as_ref(), Ok(&c.residual_q));
    }
    assert_eq!(
        encode(63),
        Some(Err(Error::Unsupported("picture dimensions outside the format's 64..65599")))
    );
}

#[test]
fn an_encode_comes_back() {
    come_back(&EncodeParams::default(), 64, 80, &[Area::new(0, 0, 4, 5)]);
}

#[test]
fn an_encode_comes_back_on_many_threads() {
    let params = EncodeParams { num_threads_z: 4, num_threads_r: 8, ..Default::default() };
    come_back(&params, 200, 100, &[Area::new(0, 0, 13, 7)]);
}

#[test]
fn an_encode_in_regions_comes_back() {
    for mode in [RegionMode::Dependent, RegionMode::Independent] {
        let params = EncodeParams { regions: Some(mode), ..Default::default() };
        let hdr = header(2100, 600, &params);
        let r = hdr.regions.unwrap();
        assert_eq!((r.num_ver, r.num_hor), (1, 2));
        let (lh, lw) = hdr.latent_size(0);
        let (lh, lw) = (lh as usize, lw as usize);
        come_back(
            &params,
            2100,
            600,
            &[Area::new(0, 0, lw / 2, lh), Area::new(lw / 2, 0, lw - lw / 2, lh)],
        );
    }
}

#[test]
fn encode_failures() {
    let t = tables();
    let mut hdr = header(64, 64, &EncodeParams::default());
    let luma = parts(3, hdr.latent_size(0), hdr.hyper_latent_size(0), 1);
    let chroma = parts(2, hdr.latent_size(1), hdr.hyper_latent_size(1), 9);
    let areas = [Area::new(0, 0, 4, 4)];
    let (l, c) = (coded(&luma, &areas), coded(&chroma, &areas));
    assert_eq!(
        encode_hyper(&mut Ledger::new(), &t, &l, &c, 0, 32),
        Err(Error::InvalidArgument("thread count out of range"))
    );
    hdr.components[0].num_threads_r = 17;
    let ledger = &mut Ledger::new();
    assert_eq!(
        encode_residual(ledger, &t, &hdr, 0, l.scale_log, l.mask, l.residual_q, l.areas),
        Err(Error::InvalidArgument("thread count out of range"))
    );
    hdr.components[0].num_threads_r = 1;
    hdr.bit_depth = 9;
    let r = encode_stream(
        &mut Ledger::new(),
        &t,
        &hdr,
        &ToolHeader::default(),
        &RenderingInfo::default(),
        &l,
        &c,
        32,
    );
    assert!(matches!(r, Err(Error::InvalidArgument(_))));
    let (ton, rdi) = (ToolHeader::default(), RenderingInfo::default());
    assert_eq!(try_encode_stream(ledger, &t, &hdr, &ton, &rdi, &l, &c, 32), Some(r));
    // The index of a region that has a substream of its own is a byte.
    hdr.bit_depth = 8;
    hdr.regions = Some(Regions {
        num_ver: 1,
        num_hor: 2,
        independent: true,
        hyper_decoder_overlap: 0,
        mcm_overlap: 0,
    });
    let many = vec![Area::new(0, 0, 1, 1); 257];
    let (l, c) = (coded(&luma, &many), coded(&chroma, &many));
    assert_eq!(try_encode_stream(ledger, &t, &hdr, &ton, &rdi, &l, &c, 32), None);
    let (l, c) = (coded(&luma, &many[..256]), coded(&chroma, &many[..256]));
    assert!(matches!(try_encode_stream(ledger, &t, &hdr, &ton, &rdi, &l, &c, 32), Some(Ok(_))));
}

#[test]
fn distributions_add_up() {
    assert!(pdf().is_valid());
    let with = |f: &dyn Fn(&mut PdfTables)| {
        let mut p = pdf();
        f(&mut p);
        p.is_valid()
    };
    assert!(!with(&|p| p.rows[31][0] -= 1));
    assert!(!with(&|p| p.bounds[7] = 0));
    assert!(!with(&|p| p.bounds[7] = 129));
    // Bound 2 puts the escape where the row has a mass of 25.
    assert!(!with(&|p| p.bounds[0] = 2));
    assert!(!with(&|p| p.rows.truncate(31)));
    assert!(!with(&|p| p.bounds.push(4)));
}

#[test]
fn region_counts_must_match() {
    let t = tables();
    let hdr = header(64, 64, &EncodeParams::default());
    let p = parts(3, hdr.latent_size(0), hdr.hyper_latent_size(0), 1);
    let ledger = &mut Ledger::new();
    assert_eq!(
        decode_component_body(ledger, &t, &hdr, 0, &p.scale, &p.mask, &[], &[None], None),
        Err(Error::InvalidData("residual region count does not match the header"))
    );
}

#[test]
fn coding_buffers_are_charged_while_they_are_held() {
    let t = tables();
    let hdr = header(64, 80, &EncodeParams::default());
    let luma = parts(3, hdr.latent_size(0), hdr.hyper_latent_size(0), 1);
    let chroma = parts(2, hdr.latent_size(1), hdr.hyper_latent_size(1), 9);
    let areas = [Area::new(0, 0, 4, 5)];
    let (ton, rdi) = (ToolHeader::default(), RenderingInfo::default());
    let (l, c) = (coded(&luma, &areas), coded(&chroma, &areas));
    let mut ledger = Ledger::new();
    let bytes = encode_stream(&mut ledger, &t, &hdr, &ton, &rdi, &l, &c, 32).unwrap();
    let cs = Codestream::parse(&bytes).unwrap();
    let mut of_decode = Ledger::new();
    let watch = MemoryWatch::new(&mut of_decode);
    let cdfs: [&[[u8; MAX_Z]]; 2] = [&luma.cdfs, &chroma.cdfs];
    let front = entropy_front(&mut of_decode, &t, &cs, &hdr, cdfs, 32).unwrap();
    // The hyper-latents are decoded one after the other, a byte per symbol.
    assert_eq!(luma.z.data.len(), 6);
    assert_eq!(of_decode.cumulative().tracked_peak_bytes, 6);
    assert_eq!(of_decode.total(), 0);
    // A chunk is one channel of 5 x 4 samples here: 8 bytes per symbol.
    let (mask, payloads) = (&luma.mask, &front.regions[0]);
    decode_component_body(&mut of_decode, &t, &hdr, 0, &luma.scale, mask, &areas, payloads, None)
        .unwrap();
    assert_eq!(of_decode.cumulative().tracked_peak_bytes, 160);
    assert_eq!(watch.report(&of_decode).tracked_peak_bytes, 160);
    assert_eq!(of_decode.total(), 0);
    // The encoder's threads are held until they are joined.
    let mut most = 0;
    let regions = [front.regions[0][0].unwrap(), front.regions[1][0].unwrap()];
    for payload in [cs.find(Marker::Soz).unwrap(), regions[0], regions[1]] {
        let threads = split_threads(payload, 1).unwrap();
        most = most.max(threads.iter().map(|p| p.len()).sum());
    }
    assert!(most > 0);
    assert_eq!(ledger.cumulative().tracked_peak_bytes, most as u64);
    assert_eq!(ledger.total(), 0);
}

#[test]
fn a_failed_decode_leaves_no_charge() {
    let t = tables();
    let hdr = header(64, 80, &EncodeParams::default());
    let p = parts(3, hdr.latent_size(0), hdr.hyper_latent_size(0), 1);
    let areas = [Area::new(0, 0, 4, 5)];
    let mut ledger = Ledger::new();
    // One thread that holds the terminator and nothing else.
    let short: &[u8] = &[1];
    let r = decode_component_body(
        &mut ledger,
        &t,
        &hdr,
        0,
        &p.scale,
        &p.mask,
        &areas,
        &[Some(short)],
        None,
    );
    assert!(matches!(r, Err(Error::InvalidData(_))));
    assert_eq!(ledger.total(), 0);
}

#[test]
fn any_bytes_decode_to_samples_in_range() {
    let t = tables();
    let cdfs = [z_cdf(10), z_cdf(40), z_cdf(0)];
    let bytes: Vec<u8> = (0..200u32).map(|i| (i * 97 + 31) as u8).collect();
    let mut dec = t.decoder(&[&bytes]).unwrap();
    let z = decode_z(&mut Ledger::new(), &mut dec, &cdfs, 32, 4, 4).unwrap();
    assert_eq!(z.data.len(), 48);
    assert!(z.data.iter().all(|v| (-32..=31).contains(v)));
}
