use raytracing::render::{Picture, Pixel, NOISE_FILL_STEP};

fn gradient(width: u32, height: u32) -> Picture {
    let mut data: Vec<u8> = Vec::new();
    for y in 0..height {
        for x in 0..width {
            data.push((10 * x + y) as u8);
            data.push((x + 10 * y) as u8);
            data.push(7);
        }
    }
    Picture::new(width, height, data)
}

fn mean(kernel: &Vec<Pixel>) -> Pixel {
    if kernel.is_empty() {
        return Pixel::default();
    }
    let n = kernel.len() as u32;
    let r: u32 = kernel.iter().map(|p| p.r as u32).sum();
    let g: u32 = kernel.iter().map(|p| p.g as u32).sum();
    let b: u32 = kernel.iter().map(|p| p.b as u32).sum();
    Pixel::new((r / n) as u8, (g / n) as u8, (b / n) as u8)
}

#[test]
fn pixel_new_keeps_channels() {
    let p = Pixel::new(1, 2, 3);
    assert_eq!((p.r, p.g, p.b), (1, 2, 3));
}

#[test]
fn empty_picture_is_black() {
    let pic = Picture::empty(3, 2);
    assert_eq!(pic.width, 3);
    assert_eq!(pic.height, 2);
    assert_eq!(pic.to_bytes(), vec![0u8; 18]);
    for y in 0..2 {
        for x in 0..3 {
            assert_eq!(pic.get_pixel((x, y)), Pixel::new(0, 0, 0));
        }
    }
}

#[test]
fn empty_picture_of_no_pixels() {
    let pic = Picture::empty(0, 5);
    assert!(pic.to_bytes().is_empty());
}

#[test]
fn first_index_is_row_major() {
    let pic = Picture::empty(4, 3);
    assert_eq!(pic.get_first_index(0, 0), 0);
    assert_eq!(pic.get_first_index(1, 2), 27);
    assert_eq!(pic.get_first_index(3, 2), 33);
}

#[test]
fn set_then_get_pixel() {
    let mut pic = Picture::empty(4, 3);
    pic.set_pixel(2, 1, Pixel::new(9, 8, 7));
    assert_eq!(pic.get_pixel((2, 1)), Pixel::new(9, 8, 7));
    assert_eq!(pic.get_pixel((1, 1)), Pixel::new(0, 0, 0));
    assert_eq!(pic.get_pixel((2, 2)), Pixel::new(0, 0, 0));
    let bytes = pic.to_bytes();
    assert_eq!(&bytes[18..21], &[9, 8, 7]);
}

#[test]
fn new_keeps_bytes() {
    let pic = gradient(2, 2);
    assert_eq!(pic.get_pixel((1, 0)), Pixel::new(10, 1, 7));
    assert_eq!(pic.get_pixel((0, 1)), Pixel::new(1, 10, 7));
    assert_eq!(pic.to_bytes().len(), 12);
}

#[test]
fn clamped_lookup_reads_the_edge() {
    let pic = gradient(3, 2);
    assert_eq!(pic.get_pixel_clamped(1, 1), pic.get_pixel((1, 1)));
    assert_eq!(pic.get_pixel_clamped(3, 0), pic.get_pixel((2, 0)));
    assert_eq!(pic.get_pixel_clamped(100, 100), pic.get_pixel((2, 1)));
    assert_eq!(pic.get_pixel_clamped(0, u64::MAX), pic.get_pixel((0, 1)));
}

#[test]
fn kernel_clamps_at_corner() {
    let pic = gradient(3, 3);
    let k = pic.get_kernel((0, 0), 1);
    assert_eq!(k.len(), 4);
    assert_eq!(k[0], pic.get_pixel((0, 0)));
    assert_eq!(k[1], pic.get_pixel((0, 0)));
    assert_eq!(k[2], pic.get_pixel((0, 0)));
    assert_eq!(k[3], pic.get_pixel((0, 0)));
    let k = pic.get_kernel((2, 2), 2);
    assert_eq!(k.len(), 16);
    assert_eq!(k[0], pic.get_pixel((0, 0)));
    assert_eq!(k[5], pic.get_pixel((1, 1)));
    assert_eq!(k[15], pic.get_pixel((2, 2)));
    assert_eq!(k[12], pic.get_pixel((0, 2)));
}

#[test]
fn kernel_of_step_zero_is_empty() {
    let pic = gradient(2, 2);
    assert!(pic.get_kernel((1, 1), 0).is_empty());
}

#[test]
fn blur_averages_each_kernel() {
    let pic = gradient(3, 2);
    let out = pic.blur(1, &mean);
    assert_eq!(out.width, 3);
    assert_eq!(out.height, 2);
    for y in 0..2 {
        for x in 0..3 {
            assert_eq!(out.get_pixel((x, y)), mean(&pic.get_kernel((x, y), 1)));
        }
    }
    assert_eq!(out.get_pixel((0, 0)), pic.get_pixel((0, 0)));
    assert_eq!(out.get_pixel((1, 1)), Pixel::new(5, 5, 7));
}

#[test]
fn denoise_replaces_only_flagged_pixels() {
    let mut pic = Picture::empty(3, 3);
    pic.set_pixel(1, 1, Pixel::new(255, 255, 255));
    let flag_bright = |p: &Pixel, _k: &Vec<Pixel>| p.r == 255;
    let out = pic.denoise(1, &flag_bright, &mean);
    assert_eq!(out.get_pixel((1, 1)), mean(&pic.get_kernel((1, 1), NOISE_FILL_STEP)));
    assert_eq!(out.get_pixel((1, 1)), Pixel::new(3, 3, 3));
    assert_eq!(out.get_pixel((0, 0)), Pixel::new(0, 0, 0));
    assert_eq!(out.get_pixel((2, 2)), Pixel::new(0, 0, 0));
}

#[test]
fn denoise_hands_the_kernel_to_the_test() {
    let pic = gradient(2, 2);
    let flag_small_kernel = |_p: &Pixel, k: &Vec<Pixel>| k.len() != 4;
    let out = pic.denoise(1, &flag_small_kernel, &mean);
    assert_eq!(out.to_bytes(), pic.to_bytes());
}
