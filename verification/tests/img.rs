use lib::img::{ImgError, Ppm};

fn sample(w: u32, h: u32) -> Vec<u8> {
    let mut v = Vec::new();
    v.extend_from_slice(format!("P6\n# comentario\n{w} {h}\n255\n").as_bytes());
    for y in 0..h {
        for x in 0..w {
            v.extend_from_slice(&[x as u8, y as u8, 7]);
        }
    }
    v
}

#[test]
fn parses_and_reads_pixels() {
    let bytes = sample(16, 12);
    let p = Ppm::parse(&bytes).unwrap();
    assert_eq!((p.w, p.h), (16, 12));
    assert_eq!(p.pixel(0, 0), (0, 0, 7));
    assert_eq!(p.pixel(15, 11), (15, 11, 7));
    assert_eq!(p.pixel(16, 0), (0, 0, 0));
    assert_eq!(p.data().len(), 16 * 12 * 3);
}

#[test]
fn rejects_malformed() {
    assert_eq!(Ppm::parse(b"P5\n1 1\n255\nxxx").unwrap_err(), ImgError::Magic);
    assert_eq!(Ppm::parse(b"P6\n1 1\n127\nxxx").unwrap_err(), ImgError::Maxval);
    assert_eq!(Ppm::parse(b"P6\n0 1\n255\n").unwrap_err(), ImgError::Dims);
    assert_eq!(Ppm::parse(b"P6\n9999 9999\n255\n").unwrap_err(), ImgError::Dims);
    assert_eq!(Ppm::parse(b"P6\n2 2\n255\nabc").unwrap_err(), ImgError::Truncated);
}

#[test]
fn img_fuzz_lite_truncations_never_panic() {
    let bytes = sample(8, 8);
    for n in 0..bytes.len() {
        let _ = Ppm::parse(&bytes[..n]);
    }
    let mut mutated = bytes.clone();
    for i in 0..mutated.len().min(64) {
        let orig = mutated[i];
        mutated[i] = 0xff;
        let _ = Ppm::parse(&mutated);
        mutated[i] = orig;
    }
}

#[test]
fn header_errors_and_exact_pixel_view() {
    assert_eq!(Ppm::parse(b"P6\n").unwrap_err(), ImgError::Header);
    assert_eq!(Ppm::parse(b"P6 99999999999 1 255\n").unwrap_err(), ImgError::Header);
    assert_eq!(Ppm::parse(b"P6 1 1 255").unwrap_err(), ImgError::Header);
    let p = Ppm::parse(b"P6 1 2 255\tABCDEFxyz").unwrap();
    assert_eq!(p.data(), b"ABCDEF");
    assert_eq!(p.pixel(0, 1), (b'D', b'E', b'F'));
}
