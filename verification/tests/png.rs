//! PNG files.

use zenjpegai::decoder::{Picture, RgbImage, YuvImage};
use zenjpegai::error::Error;
use zenjpegai::png::{
    checked_size, picture_file, png_input, read_png_rgb8, rgb8_picture, rows_are_held,
    try_read_png_rgb8, write_png, written_file, FileError, PngInput, PngSamples,
};

fn image(w: usize, h: usize, depth: u8) -> RgbImage {
    let m = 1usize << depth;
    RgbImage {
        width: w,
        height: h,
        bit_depth: depth,
        data: (0..3 * w * h).map(|i| (i * 2654435 % m) as u16).collect(),
    }
}

#[test]
fn eight_bit_pictures_come_back_from_a_png() {
    let img = image(37, 21, 8);
    let file = write_png(&img).unwrap();
    assert_eq!(file[..8], [0x89, 0x50, 0x4e, 0x47, 0x0d, 0x0a, 0x1a, 0x0a]);
    assert_eq!(file[16..24], [0, 0, 0, 37, 0, 0, 0, 21]);
    assert_eq!(read_png_rgb8(&file).unwrap(), img);
    assert_eq!(try_read_png_rgb8(&file), Some(Ok(img)));
}

#[test]
fn deeper_pictures_take_sixteen_bits() {
    let img = image(5, 4, 10);
    let file = write_png(&img).unwrap();
    assert_eq!((file[24], file[25]), (16, 2));
    // Reading reduces to 8 bit.
    let back = read_png_rgb8(&file).unwrap();
    assert_eq!((back.width, back.height, back.bit_depth), (5, 4, 8));
    for (b, v) in back.data.iter().zip(&img.data) {
        assert_eq!(u32::from(*b), (2 * (64 * u32::from(*v) + 63) + 257) / 514);
    }
}

#[test]
fn every_deep_sample_is_read_as_the_nearest_level() {
    // Every sample of sixteen bits, in rows that leave a rest in any group of samples.
    let data: Vec<u16> = (0..=65535u16).chain(0..8).collect();
    let img = RgbImage { width: 331, height: 66, bit_depth: 16, data: data[..65538].to_vec() };
    let back = read_png_rgb8(&write_png(&img).unwrap()).unwrap();
    for (b, v) in back.data.iter().zip(&img.data) {
        assert_eq!(u32::from(*b), (2 * u32::from(*v) + 257) / 514, "sample {v}");
    }
    for depth in 9..=15u8 {
        let img = image(19, 11, depth);
        let m = 1u32 << (16 - depth);
        let back = read_png_rgb8(&write_png(&img).unwrap()).unwrap();
        for (b, v) in back.data.iter().zip(&img.data) {
            let lifted = u32::from(*v) * m + m - 1;
            assert_eq!(u32::from(*b), (2 * lifted + 257) / 514, "{depth} bit, sample {v}");
        }
    }
}

#[test]
fn high_bytes_alone_are_kept_as_they_are() {
    let data = (0..300).map(|i| (i * 7 % 256) << 8).collect();
    let img = RgbImage { width: 10, height: 10, bit_depth: 16, data };
    let back = read_png_rgb8(&write_png(&img).unwrap()).unwrap();
    for (b, v) in back.data.iter().zip(&img.data) {
        assert_eq!(*b, v / 256);
    }
}

/// A chunk of a PNG with its checksum.
fn chunk(kind: &[u8; 4], data: &[u8]) -> Vec<u8> {
    let mut crc = u32::MAX;
    for &b in kind.iter().chain(data) {
        crc ^= u32::from(b);
        for _ in 0..8 {
            crc = if crc & 1 == 1 { crc >> 1 ^ 0xedb8_8320 } else { crc >> 1 };
        }
    }
    let length = (data.len() as u32).to_be_bytes();
    [&length[..], &kind[..], data, &(!crc).to_be_bytes()[..]].concat()
}

/// A grey picture of 2 x 2 samples whose data are these bytes, uncompressed.
fn grey(rows: &[u8]) -> Vec<u8> {
    let (mut low, mut high) = (1u32, 0u32);
    for &b in rows {
        low = (low + u32::from(b)) % 65521;
        high = (high + low) % 65521;
    }
    let n = rows.len() as u16;
    let mut zlib = vec![0x78, 0x01, 0x01];
    zlib.extend(n.to_le_bytes());
    zlib.extend((!n).to_le_bytes());
    zlib.extend(rows);
    zlib.extend((high << 16 | low).to_be_bytes());
    let mut file = vec![0x89, 0x50, 0x4e, 0x47, 0x0d, 0x0a, 0x1a, 0x0a];
    file.extend(chunk(b"IHDR", &[0, 0, 0, 2, 0, 0, 0, 2, 8, 0, 0, 0, 0]));
    file.extend(chunk(b"IDAT", &zlib));
    file.extend(chunk(b"IEND", &[]));
    file
}

#[test]
fn files_that_lack_rows_are_refused() {
    let whole = read_png_rgb8(&grey(&[0, 10, 20, 0, 30, 40])).unwrap();
    assert_eq!(whole.data, [10, 10, 10, 20, 20, 20, 30, 30, 30, 40, 40, 40]);
    let bad = Err(Error::InvalidArgument("the input is not a readable PNG"));
    let short = grey(&[0, 10, 20]);
    assert_eq!(read_png_rgb8(&short), bad);
    assert_eq!(try_read_png_rgb8(&short), Some(bad));
    assert!(rows_are_held(None));
    assert!(rows_are_held(Some((12, 6, 2))));
    assert!(!rows_are_held(Some((11, 6, 2))));
    assert!(!rows_are_held(Some((usize::MAX, usize::MAX, 2))));
}

#[test]
fn other_files_are_refused() {
    let bad = Err(Error::InvalidArgument("the input is not a readable PNG"));
    assert_eq!(read_png_rgb8(b"not a picture"), bad);
    let file = write_png(&image(9, 9, 8)).unwrap();
    assert_eq!(read_png_rgb8(&file[..file.len() / 2]), bad);
}

#[test]
fn found_sizes_are_checked() {
    assert_eq!(checked_size(Some((3, 4))), Ok((3, 4)));
    assert_eq!(checked_size(Some((0, 4))), Err(Error::InvalidArgument("empty PNG")));
    assert!(checked_size(None).is_err());
    assert_eq!(rgb8_picture(Some(vec![1, 2, 255]), 1, 1).unwrap().data, [1, 2, 255]);
    assert!(rgb8_picture(None, 1, 1).is_err());
}

#[test]
fn pictures_that_do_not_fit_are_not_read() {
    let mut file = write_png(&image(2, 2, 8)).unwrap();
    // The largest dimensions a header can name, under a checksum that fits.
    file[16..24].copy_from_slice(&[0x7f, 0xff, 0xff, 0xff, 0x7f, 0xff, 0xff, 0xff]);
    let mut crc = 0xffff_ffffu32;
    for &b in &file[12..29] {
        crc ^= b as u32;
        for _ in 0..8 {
            crc = if crc & 1 == 1 { (crc >> 1) ^ 0xedb8_8320 } else { crc >> 1 };
        }
    }
    file[29..33].copy_from_slice(&(!crc).to_be_bytes());
    assert_eq!(try_read_png_rgb8(&file), None);
}

#[test]
fn planes_need_their_ending() {
    let yuv = Picture::Yuv(YuvImage {
        width: 1,
        height: 1,
        chroma_width: 1,
        chroma_height: 1,
        bit_depth: 8,
        y: vec![1],
        u: vec![2],
        v: vec![3],
    });
    assert_eq!(picture_file(&yuv, "a.YUV"), Ok(vec![1, 2, 3]));
    assert_eq!(picture_file(&yuv, "a.png"), Err(FileError::NeedsYuv));
    let rgb = Picture::Rgb(image(3, 3, 8));
    assert!(picture_file(&rgb, "a.png").is_ok());
}

#[test]
fn samples_are_handed_over() {
    let rgb = |bit_depth: u8, data: Vec<u16>| RgbImage { width: 1, height: 1, bit_depth, data };
    let input = |samples: PngSamples| PngInput { width: 1, height: 1, samples };
    let eight = png_input(&rgb(8, vec![0, 7, 255]));
    assert_eq!(eight, input(PngSamples::Eight(vec![0, 7, 255])));
    // Deeper samples fill sixteen bits from the top, and the bits below are set.
    let ten = png_input(&rgb(10, vec![0, 1, 1023]));
    assert_eq!(ten, input(PngSamples::Sixteen(vec![63, 127, 65535])));
    let sixteen = png_input(&rgb(16, vec![0, 1, 65535]));
    assert_eq!(sixteen, input(PngSamples::Sixteen(vec![0, 1, 65535])));
    assert_eq!(written_file(Some(vec![1, 2])), Ok(vec![1, 2]));
    assert_eq!(written_file(None), Err(FileError::Png));
}

#[test]
fn flat_and_grey_pictures_come_back_from_a_png() {
    for data in [vec![9u16; 3 * 64], (0..3 * 64).map(|i| (i / 3 * 3) as u16).collect()] {
        let img = RgbImage { width: 8, height: 8, bit_depth: 8, data };
        assert_eq!(read_png_rgb8(&write_png(&img).unwrap()), Ok(img));
    }
}
